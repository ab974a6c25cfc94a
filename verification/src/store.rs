//! The persistent task store.
//!
//! A `TaskStore` owns one SQLite connection and an in-memory mirror of the
//! stored table, read once when the store is opened. Within a run the
//! mirror is the authoritative copy: every operation works on it with a
//! full contract, and each mutation is written through to the database by a
//! small trusted wrapper before the mirror changes, so that a mutation
//! either happens in both places or in neither.

use crate::dates::is_canonical_due;
use crate::tasks::TaskRec;
use crate::tasks::Task;
use crate::tasks::clone_rec;
use crate::tasks::clone_rows;
use crate::tasks::lemma_sort_spec_props;
use crate::tasks::order_rows;
use crate::tasks::project;
use crate::tasks::set_done_by_id;
use crate::tasks::sort_spec;
use crate::tasks::spec_project;
use vstd::prelude::*;

verus! {

/// Why a store operation failed.
#[derive(Debug)]
pub enum StoreError {
    /// No row stands at the given position.
    NotFound,
    /// The storage engine reported an error; its message.
    Storage(String),
}

impl StoreError {
    /// Whether this is the position-out-of-range failure, as opposed to a
    /// storage failure.
    pub fn is_not_found(&self) -> (b: bool)
        ensures
            b == (self is NotFound),
    {
        match self {
            StoreError::NotFound => true,
            StoreError::Storage(_) => false,
        }
    }

    /// A short description for a presentation layer.
    pub fn message(&self) -> (m: String)
        ensures
            self matches StoreError::Storage(s) ==> m@ == s@,
            self is NotFound ==> m@ == "task not found"@,
    {
        match self {
            StoreError::NotFound => "task not found".to_owned(),
            StoreError::Storage(s) => s.clone(),
        }
    }
}

// ---------------------------------------------------------------------------
// The SQLite connection, behind trusted items
// ---------------------------------------------------------------------------

#[verifier::external_type_specification]
#[verifier::external_body]
pub struct ExConnection(rusqlite::Connection);

/// Relies on `rusqlite::Connection::open`: opens the database file at the
/// given path (or URI), creating it if absent.
#[verifier::external_body]
fn db_open(path: &str) -> (r: Result<rusqlite::Connection, StoreError>)
{
    rusqlite::Connection::open(path).map_err(|e| StoreError::Storage(format!("{}", e)))
}

/// Relies on `rusqlite::Connection::execute` running
/// `CREATE TABLE IF NOT EXISTS`: the table is created when missing and an
/// existing table, with whatever rows it holds, is left exactly as it is.
#[verifier::external_body]
fn db_create_table(conn: &rusqlite::Connection) -> (r: Result<(), StoreError>)
    ensures
        r matches Err(e) ==> e is Storage,
{
    conn.execute(
        "CREATE TABLE IF NOT EXISTS todo (
            id INTEGER PRIMARY KEY AUTOINCREMENT,
            task TEXT NOT NULL,
            done INTEGER NOT NULL,
            due TEXT
        )",
        [],
    ).map(|_| ()).map_err(|e| StoreError::Storage(format!("{}", e)))
}

/// Relies on `rusqlite::Connection::prepare` and
/// `rusqlite::Statement::query_map` running
/// `SELECT id, task, done, due FROM todo`: each stored row comes back with
/// its id, text, completion flag and optional due text. Nothing is assumed
/// about their number, contents or order.
#[verifier::external_body]
fn db_fetch_rows(conn: &rusqlite::Connection) -> (r: Result<Vec<TaskRec>, StoreError>)
    ensures
        r matches Err(e) ==> e is Storage,
{
    let run = || -> rusqlite::Result<Vec<TaskRec>> {
        let mut stmt = conn.prepare("SELECT id, task, done, due FROM todo")?;
        let rows = stmt.query_map(
            [],
            |row| Ok(TaskRec {
                id: row.get(0)?,
                description: row.get(1)?,
                done: row.get(2)?,
                due: row.get(3)?,
            }),
        )?;
        rows.collect()
    };
    run().map_err(|e| StoreError::Storage(format!("{}", e)))
}

/// Relies on `rusqlite::Connection::execute` running an `INSERT` of exactly
/// one row with the given id, text, `done = 0` and the given due text.
#[verifier::external_body]
fn db_insert(conn: &rusqlite::Connection, id: i64, description: &str, due: &Option<String>) -> (r:
    Result<(), StoreError>)
    ensures
        r matches Err(e) ==> e is Storage,
{
    conn.execute(
        "INSERT INTO todo (id, task, done, due) VALUES (?1, ?2, 0, ?3)",
        (id, description, due.as_deref()),
    ).map(|_| ()).map_err(|e| StoreError::Storage(format!("{}", e)))
}

/// Relies on `rusqlite::Connection::execute` running
/// `UPDATE todo SET done = 1 WHERE id = ?1`: only rows with that id change,
/// and only their completion flag.
#[verifier::external_body]
fn db_set_done(conn: &rusqlite::Connection, id: i64) -> (r: Result<(), StoreError>)
    ensures
        r matches Err(e) ==> e is Storage,
{
    conn.execute("UPDATE todo SET done = 1 WHERE id = ?1", (id,)).map(|_| ()).map_err(
        |e| StoreError::Storage(format!("{}", e)),
    )
}

/// Relies on `rusqlite::Connection::execute` running
/// `DELETE FROM todo WHERE id = ?1`: exactly the rows with that id go.
#[verifier::external_body]
fn db_delete(conn: &rusqlite::Connection, id: i64) -> (r: Result<(), StoreError>)
    ensures
        r matches Err(e) ==> e is Storage,
{
    conn.execute("DELETE FROM todo WHERE id = ?1", (id,)).map(|_| ()).map_err(
        |e| StoreError::Storage(format!("{}", e)),
    )
}

/// Relies on `rusqlite::Connection::execute` running
/// `DELETE FROM todo WHERE done = 1`: exactly the completed rows go, and
/// deleting none of them is still success.
#[verifier::external_body]
fn db_purge(conn: &rusqlite::Connection) -> (r: Result<(), StoreError>)
    ensures
        r matches Err(e) ==> e is Storage,
{
    conn.execute("DELETE FROM todo WHERE done = 1", []).map(|_| ()).map_err(
        |e| StoreError::Storage(format!("{}", e)),
    )
}

/// Relies on `rusqlite::Connection::execute` running
/// `DROP TABLE IF EXISTS todo`: the whole table is destroyed.
#[verifier::external_body]
fn db_drop_table(conn: &rusqlite::Connection) -> (r: Result<(), StoreError>)
    ensures
        r matches Err(e) ==> e is Storage,
{
    conn.execute("DROP TABLE IF EXISTS todo", []).map(|_| ()).map_err(
        |e| StoreError::Storage(format!("{}", e)),
    )
}

// ---------------------------------------------------------------------------
// The store
// ---------------------------------------------------------------------------

/// No two rows share a surrogate id.
pub open spec fn ids_distinct(s: Seq<TaskRec>) -> bool {
    forall|i: int, j: int| 0 <= i < j < s.len() ==> s[i].id != s[j].id
}

/// The id that a 0-based position resolves to under the canonical ordering.
pub open spec fn resolved_id(rows: Seq<TaskRec>, pos: int) -> i64 {
    sort_spec(rows)[pos].id
}

/// The persistent task store: one open connection and the mirror of its
/// table, in insertion order.
pub struct TaskStore {
    conn: rusqlite::Connection,
    rows: Vec<TaskRec>,
    next_id: i64,
}

impl View for TaskStore {
    type V = Seq<TaskRec>;

    /// The stored table, in insertion order.
    closed spec fn view(&self) -> Seq<TaskRec> {
        self.rows@
    }
}

impl TaskStore {
    /// The id the next added task will get.
    pub closed spec fn spec_next_id(&self) -> int {
        self.next_id as int
    }

    /// Well-formedness: ids are unique, below the next free id, and the
    /// next free id has room to be handed out.
    pub open spec fn inv(&self) -> bool {
        &&& ids_distinct(self@)
        &&& forall|i: int| 0 <= i < self@.len() ==> self@[i].id < self.spec_next_id()
        &&& self.spec_next_id() <= i64::MAX as int
    }

    /// Open (creating if absent) the store at the given filesystem path or
    /// SQLite URI, and read the stored table.
    pub fn init_db(path: &str) -> (r: Result<TaskStore, StoreError>)
        ensures
            r matches Ok(st) ==> st.inv(),
    {
        let conn = match db_open(path) {
            Ok(c) => c,
            Err(e) => { return Err(e); },
        };
        match db_create_table(&conn) {
            Ok(u) => u,
            Err(e) => { return Err(e); },
        };
        let rows = match db_fetch_rows(&conn) {
            Ok(v) => v,
            Err(e) => { return Err(e); },
        };
        if !check_ids_distinct(&rows) {
            return Err(StoreError::Storage("stored table holds duplicate task ids".to_owned()));
        }
        let next_id = match compute_next_id(&rows) {
            Some(n) => n,
            None => {
                return Err(StoreError::Storage("task id space is exhausted".to_owned()));
            },
        };
        Ok(TaskStore { conn, rows, next_id })
    }

    /// Persist one new task. The new row goes at the end of the table with
    /// the next free id, the given text and due string, and the completion
    /// flag down; nothing else changes. Fails only if the storage engine
    /// does, or if the id space is exhausted; the table is then unchanged.
    pub fn add_task(&mut self, description: &str, due: Option<&str>) -> (r: Result<(), StoreError>)
        requires
            old(self).inv(),
            description@.len() > 0,
            due matches Some(d) ==> is_canonical_due(d@),
        ensures
            final(self).inv(),
            r matches Err(e) ==> e is Storage && final(self)@ == old(self)@ && final(self).spec_next_id() == old(self).spec_next_id(),
            old(self).spec_next_id() == i64::MAX as int ==> r is Err,
            r is Ok ==> {
                &&& final(self)@.len() == old(self)@.len() + 1
                &&& final(self)@ == old(self)@.push(final(self)@.last())
                &&& final(self)@.last().id as int == old(self).spec_next_id()
                &&& final(self)@.last().description@ == description@
                &&& final(self)@.last().done == false
                &&& (due matches Some(d) ==> final(self)@.last().due matches Some(t) && t@ == d@)
                &&& (due is None ==> final(self)@.last().due is None)
                &&& final(self).spec_next_id() == old(self).spec_next_id() + 1
            },
    {
        if self.next_id == i64::MAX {
            return Err(StoreError::Storage("task id space is exhausted".to_owned()));
        }
        let id = self.next_id;
        let due_owned: Option<String> = match due {
            Some(d) => Some(d.to_owned()),
            None => None,
        };
        match db_insert(&self.conn, id, description, &due_owned) {
            Err(e) => Err(e),
            Ok(u) => {
                let rec = TaskRec {
                    id,
                    description: description.to_owned(),
                    done: false,
                    due: due_owned,
                };
                self.rows.push(rec);
                self.next_id = id + 1;
                proof {
                    assert forall|i: int, j: int|
                        0 <= i < j < self@.len() implies self@[i].id != self@[j].id by {
                        if j < self@.len() - 1 {
                            assert(old(self)@[i].id != old(self)@[j].id);
                        } else {
                            assert(old(self)@[i].id < id);
                        }
                    }
                }
                Ok(u)
            },
        }
    }

    /// All tasks, in the canonical order, with 1-based display positions.
    /// Never changes the table. Fails only when the table has grown past
    /// what the display index can number.
    pub fn get_tasks(&self) -> (r: Result<Vec<Task>, StoreError>)
        ensures
            r matches Ok(ts) ==> ts@ == spec_project(sort_spec(self@)),
            r matches Err(e) ==> e is Storage && self@.len() >= 0x7fff_ffff,
    {
        if self.rows.len() >= 0x7fff_ffff {
            return Err(StoreError::Storage("too many tasks to list".to_owned()));
        }
        let mut ordered = clone_rows(&self.rows);
        order_rows(&mut ordered);
        proof {
            lemma_sort_spec_props(self@);
        }
        Ok(project(&ordered))
    }

    /// Resolve a 0-based position against the canonical ordering, freshly,
    /// and raise the completion flag of the row it names; every other row,
    /// and the order of the table, stay as they were. An out-of-range
    /// position is the not-found failure and changes nothing; a storage
    /// failure changes nothing.
    pub fn mark_done(&mut self, pos: usize) -> (r: Result<(), StoreError>)
        requires
            old(self).inv(),
        ensures
            final(self).inv(),
            final(self).spec_next_id() == old(self).spec_next_id(),
            pos >= old(self)@.len() ==> (r matches Err(e) && e is NotFound && final(self)@ == old(self)@),
            pos < old(self)@.len() ==> (r is Ok ==> final(self)@ == set_done_by_id(old(self)@, resolved_id(old(self)@, pos as int))),
            pos < old(self)@.len() ==> (r matches Err(e) ==> e is Storage && final(self)@ == old(self)@),
    {
        if pos >= self.rows.len() {
            return Err(StoreError::NotFound);
        }
        let mut ordered = clone_rows(&self.rows);
        order_rows(&mut ordered);
        proof {
            lemma_sort_spec_props(self@);
        }
        let id = ordered[pos].id;
        match db_set_done(&self.conn, id) {
            Err(e) => Err(e),
            Ok(u) => {
                set_done_in(&mut self.rows, id);
                Ok(u)
            },
        }
    }

    /// Resolve a 0-based position the same way and delete the row it
    /// names; the surviving rows keep their relative order. The failure
    /// modes are those of `mark_done`.
    pub fn remove_task(&mut self, pos: usize) -> (r: Result<(), StoreError>)
        requires
            old(self).inv(),
        ensures
            final(self).inv(),
            final(self).spec_next_id() == old(self).spec_next_id(),
            pos >= old(self)@.len() ==> (r matches Err(e) && e is NotFound && final(self)@ == old(self)@),
            pos < old(self)@.len() ==> (r is Ok ==> final(self)@ == old(self)@.filter(|rec: TaskRec| rec.id != resolved_id(old(self)@, pos as int))),
            pos < old(self)@.len() ==> (r matches Err(e) ==> e is Storage && final(self)@ == old(self)@),
    {
        if pos >= self.rows.len() {
            return Err(StoreError::NotFound);
        }
        let mut ordered = clone_rows(&self.rows);
        order_rows(&mut ordered);
        proof {
            lemma_sort_spec_props(self@);
        }
        let id = ordered[pos].id;
        match db_delete(&self.conn, id) {
            Err(e) => Err(e),
            Ok(u) => {
                retain_other_ids(&mut self.rows, id);
                proof {
                    lemma_filter_keeps_inv(old(self)@, |rec: TaskRec| rec.id != id);
                    assert forall|i: int| 0 <= i < self@.len() implies self@[i].id
                        < self.spec_next_id() by {
                        assert(self@.contains(self@[i]));
                        assert(old(self)@.contains(self@[i]));
                        let k = choose|k: int|
                            0 <= k < old(self)@.len() && old(self)@[k] == self@[i];
                        assert(old(self)@[k].id < old(self).spec_next_id());
                    }
                }
                Ok(u)
            },
        }
    }

    /// Delete every completed row, unconditionally; deleting none is still
    /// success. The surviving rows keep their relative order.
    pub fn clear_tasks(&mut self) -> (r: Result<(), StoreError>)
        requires
            old(self).inv(),
        ensures
            final(self).inv(),
            final(self).spec_next_id() == old(self).spec_next_id(),
            r is Ok ==> final(self)@ == old(self)@.filter(|rec: TaskRec| !rec.done),
            r matches Err(e) ==> e is Storage && final(self)@ == old(self)@,
    {
        match db_purge(&self.conn) {
            Err(e) => Err(e),
            Ok(u) => {
                retain_pending(&mut self.rows);
                proof {
                    lemma_filter_keeps_inv(old(self)@, |rec: TaskRec| !rec.done);
                    assert forall|i: int| 0 <= i < self@.len() implies self@[i].id
                        < self.spec_next_id() by {
                        assert(self@.contains(self@[i]));
                        assert(old(self)@.contains(self@[i]));
                        let k = choose|k: int|
                            0 <= k < old(self)@.len() && old(self)@[k] == self@[i];
                        assert(old(self)@[k].id < old(self).spec_next_id());
                    }
                }
                Ok(u)
            },
        }
    }

    /// Destroy the whole stored table, irreversibly.
    pub fn reset(&mut self) -> (r: Result<(), StoreError>)
        requires
            old(self).inv(),
        ensures
            final(self).inv(),
            r is Ok ==> final(self)@ == Seq::<TaskRec>::empty(),
            r matches Err(e) ==> e is Storage && final(self)@ == old(self)@,
    {
        match db_drop_table(&self.conn) {
            Err(e) => Err(e),
            Ok(u) => {
                self.rows = Vec::new();
                self.next_id = 1;
                Ok(u)
            },
        }
    }
}

/// A table that satisfied the store invariant still does after any rows
/// are filtered away.
proof fn lemma_filter_keeps_inv(s: Seq<TaskRec>, p: spec_fn(TaskRec) -> bool)
    requires
        ids_distinct(s),
    ensures
        ids_distinct(s.filter(p)),
        forall|e: TaskRec| #[trigger] s.filter(p).contains(e) ==> s.contains(e),
    decreases s.len(),
{
    broadcast use Seq::lemma_filter_contains_rev;

    reveal(Seq::filter);
    if s.len() > 0 {
        let rest = s.drop_last();
        let last = s.last();
        assert(ids_distinct(rest)) by {
            assert forall|i: int, j: int| 0 <= i < j < rest.len() implies rest[i].id
                != rest[j].id by {
                assert(s[i].id != s[j].id);
            }
        }
        lemma_filter_keeps_inv(rest, p);
        let sub = rest.filter(p);
        if p(last) {
            assert(s.filter(p) == sub.push(last));
            assert forall|i: int, j: int| 0 <= i < j < s.filter(p).len() implies s.filter(p)[i].id
                != s.filter(p)[j].id by {
                if j < s.filter(p).len() - 1 {
                    assert(sub[i].id != sub[j].id);
                } else {
                    let e = sub[i];
                    assert(sub.contains(e));
                    assert(rest.contains(e));
                    let k = choose|k: int| 0 <= k < rest.len() && rest[k] == e;
                    assert(s[k].id != s[s.len() - 1].id);
                }
            }
        }
    }
}

/// Raise the completion flag on every row with the given id, in place.
fn set_done_in(v: &mut Vec<TaskRec>, id: i64)
    ensures
        final(v)@ == set_done_by_id(old(v)@, id),
{
    let n = v.len();
    let mut i: usize = 0;
    while i < n
        invariant
            i <= n == v@.len(),
            v@.len() == old(v)@.len(),
            forall|k: int| 0 <= k < i ==> v@[k] == set_done_by_id(old(v)@, id)[k],
            forall|k: int| i <= k < n ==> v@[k] == old(v)@[k],
        decreases n - i,
    {
        if v[i].id == id {
            v[i].done = true;
        }
        i += 1;
    }
    proof {
        assert(v@ =~= set_done_by_id(old(v)@, id));
    }
}

/// Keep only the rows whose id differs from the given one, in place and in
/// order.
fn retain_other_ids(v: &mut Vec<TaskRec>, id: i64)
    ensures
        final(v)@ == old(v)@.filter(|rec: TaskRec| rec.id != id),
{
    let ghost p = |rec: TaskRec| rec.id != id;
    let n = v.len();
    let mut out: Vec<TaskRec> = Vec::new();
    let mut i: usize = 0;
    proof {
        reveal(Seq::filter);
        assert(old(v)@.subrange(0, 0) =~= Seq::<TaskRec>::empty());
        assert(out@ =~= old(v)@.subrange(0, 0).filter(p));
    }
    while i < n
        invariant
            i <= n == v@.len(),
            v@ == old(v)@,
            out@ == old(v)@.subrange(0, i as int).filter(|rec: TaskRec| rec.id != id),
        decreases n - i,
    {
        proof {
            reveal(Seq::filter);
            assert(old(v)@.subrange(0, i as int + 1).drop_last() =~= old(v)@.subrange(0, i as int));
            assert(old(v)@.subrange(0, i as int + 1).last() == old(v)@[i as int]);
        }
        if v[i].id != id {
            out.push(clone_rec(&v[i]));
        }
        i += 1;
    }
    proof {
        assert(old(v)@.subrange(0, n as int) =~= old(v)@);
    }
    *v = out;
}

/// Keep only the rows whose completion flag is down, in place and in
/// order.
fn retain_pending(v: &mut Vec<TaskRec>)
    ensures
        final(v)@ == old(v)@.filter(|rec: TaskRec| !rec.done),
{
    let ghost p = |rec: TaskRec| !rec.done;
    let n = v.len();
    let mut out: Vec<TaskRec> = Vec::new();
    let mut i: usize = 0;
    proof {
        reveal(Seq::filter);
        assert(old(v)@.subrange(0, 0) =~= Seq::<TaskRec>::empty());
        assert(out@ =~= old(v)@.subrange(0, 0).filter(p));
    }
    while i < n
        invariant
            i <= n == v@.len(),
            v@ == old(v)@,
            out@ == old(v)@.subrange(0, i as int).filter(|rec: TaskRec| !rec.done),
        decreases n - i,
    {
        proof {
            reveal(Seq::filter);
            assert(old(v)@.subrange(0, i as int + 1).drop_last() =~= old(v)@.subrange(0, i as int));
            assert(old(v)@.subrange(0, i as int + 1).last() == old(v)@[i as int]);
        }
        if !v[i].done {
            out.push(clone_rec(&v[i]));
        }
        i += 1;
    }
    proof {
        assert(old(v)@.subrange(0, n as int) =~= old(v)@);
    }
    *v = out;
}

/// Whether every row carries its own id.
fn check_ids_distinct(rows: &Vec<TaskRec>) -> (b: bool)
    ensures
        b == ids_distinct(rows@),
{
    let n = rows.len();
    let mut i: usize = 0;
    while i < n
        invariant
            i <= n == rows@.len(),
            forall|p: int, q: int| 0 <= p < q < n && p < i ==> rows@[p].id != rows@[q].id,
        decreases n - i,
    {
        let mut j: usize = i + 1;
        while j < n
            invariant
                i < n == rows@.len(),
                i < j <= n,
                forall|q: int| i < q < j ==> rows@[i as int].id != rows@[q].id,
            decreases n - j,
        {
            if rows[i].id == rows[j].id {
                return false;
            }
            j += 1;
        }
        i += 1;
    }
    true
}

/// One more than the largest stored id, and at least 1; nothing if some id
/// is already the largest representable.
fn compute_next_id(rows: &Vec<TaskRec>) -> (r: Option<i64>)
    ensures
        r matches Some(n) ==> 1 <= n && (forall|i: int|
            0 <= i < rows@.len() ==> rows@[i].id < n as int),
        r is None ==> exists|i: int| 0 <= i < rows@.len() && rows@[i].id == i64::MAX,
{
    let mut n: i64 = 1;
    let mut i: usize = 0;
    while i < rows.len()
        invariant
            i <= rows@.len(),
            1 <= n,
            forall|k: int| 0 <= k < i ==> rows@[k].id < n as int,
        decreases rows@.len() - i,
    {
        if rows[i].id >= n {
            if rows[i].id == i64::MAX {
                return None;
            }
            n = rows[i].id + 1;
        }
        i += 1;
    }
    Some(n)
}

} // verus!
