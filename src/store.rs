use crate::record::{Bookmark, BookmarkRow};
use crate::text::{is_trimmed, lemma_trim_idempotent, trim, trim_text};
use rusqlite::{Connection, OptionalExtension};
use vstd::prelude::*;

verus! {

#[verifier::external_type_specification]
#[verifier::external_body]
pub struct ExConnection(rusqlite::Connection);

#[verifier::external_type_specification]
#[verifier::external_body]
pub struct ExSqlError(rusqlite::Error);

/// Why a store operation did not go through.
#[derive(Debug, Clone, Copy, PartialEq, Eq)]
pub enum StoreError {
    /// The file could not be opened, its table created or its rows read.
    Open,
    /// No bookmark has the requested id.
    NotFound,
    /// The database refused a statement on an open store.
    Io,
    /// The largest id is already `i64::MAX`: no further id can be assigned.
    Exhausted,
}

/// A value bound to a statement parameter.
pub enum SqlValue {
    Int(i64),
    Text(String),
}

/// Runs one SQL statement with `args` bound to `?1`, `?2`, ... in order.
///
/// Relies on rusqlite's `Connection::execute`. What the statement does to the
/// file depends on the file, so nothing is stated of it.
#[verifier::external_body]
fn execute(conn: &Connection, sql: &str, args: &Vec<SqlValue>) -> (r: Result<usize, rusqlite::Error>)
{
    let values = args.iter().map(|a| match a {
        SqlValue::Int(i) => rusqlite::types::Value::Integer(*i),
        SqlValue::Text(t) => rusqlite::types::Value::Text(t.clone()),
    });
    conn.execute(sql, rusqlite::params_from_iter(values))
}

/// The integer in the first column of the first row of a query, `None` when
/// the query returns no row.
///
/// Relies on rusqlite's `Connection::query_row` and `OptionalExtension::optional`.
/// The value depends on the file, so nothing is stated of it.
#[verifier::external_body]
fn query_int(conn: &Connection, sql: &str) -> (r: Result<Option<i64>, rusqlite::Error>)
{
    conn.query_row(sql, [], |row| row.get(0)).optional()
}

/// The rows of a query of four columns, as (id, name, url, description).
///
/// Relies on rusqlite's `Connection::prepare` and `Statement::query_map`. The
/// rows depend on the file, so nothing is stated of them.
#[verifier::external_body]
fn query_rows(conn: &Connection, sql: &str) -> (r: Result<Vec<(i64, String, String, String)>, rusqlite::Error>)
{
    let mut stmt = conn.prepare(sql)?;
    let rows = stmt.query_map([], |row| Ok((row.get(0)?, row.get(1)?, row.get(2)?, row.get(3)?)))?;
    rows.collect()
}

/// Ids strictly increase along `s`, so no two rows share one.
pub open spec fn ids_ascending(s: Seq<BookmarkRow>) -> bool {
    forall|i: int, j: int| 0 <= i < j < s.len() ==> s[i].0 < s[j].0
}

/// The row of `s` with id `id`, if there is one (the last such row).
pub open spec fn find_row(s: Seq<BookmarkRow>, id: i64) -> Option<BookmarkRow>
    decreases s.len(),
{
    if s.len() == 0 {
        None
    } else if s.last().0 == id {
        Some(s.last())
    } else {
        find_row(s.drop_last(), id)
    }
}

/// The three texts of every row are trimmed.
pub open spec fn rows_trimmed(s: Seq<BookmarkRow>) -> bool {
    forall|k: int|
        0 <= k < s.len() ==> is_trimmed((#[trigger] s[k]).1) && is_trimmed(s[k].2) && is_trimmed(s[k].3)
}

/// No row of `s` has an id above `high`.
pub open spec fn ids_at_most(s: Seq<BookmarkRow>, high: int) -> bool {
    forall|k: int| 0 <= k < s.len() ==> #[trigger] s[k].0 <= high
}

/// The largest id of `s` (ids ascend, so the last one), or `None` when empty.
pub open spec fn max_id(s: Seq<BookmarkRow>) -> Option<i64> {
    if s.len() == 0 {
        None
    } else {
        Some(s.last().0)
    }
}

/// `s` after inserting, under id `id`, a bookmark made of the trimmed texts.
pub open spec fn insert_row(s: Seq<BookmarkRow>, id: i64, name: Seq<char>, url: Seq<char>, description: Seq<char>) -> Seq<BookmarkRow> {
    s.push((id, trim(name), trim(url), trim(description)))
}

/// `s` after overwriting the fields of the row with id `id` by the trimmed texts.
pub open spec fn update_rows(
    s: Seq<BookmarkRow>,
    id: i64,
    name: Seq<char>,
    url: Seq<char>,
    description: Seq<char>,
) -> Seq<BookmarkRow> {
    s.map_values(
        |r: BookmarkRow|
            if r.0 == id {
                (id, trim(name), trim(url), trim(description))
            } else {
                r
            },
    )
}

/// `s` without the rows whose id is `id`.
pub open spec fn without_id(s: Seq<BookmarkRow>, id: i64) -> Seq<BookmarkRow>
    decreases s.len(),
{
    if s.len() == 0 {
        s
    } else if s.last().0 == id {
        without_id(s.drop_last(), id)
    } else {
        without_id(s.drop_last(), id).push(s.last())
    }
}

proof fn lemma_find_at(s: Seq<BookmarkRow>, id: i64, i: int)
    requires
        ids_ascending(s),
        0 <= i < s.len(),
        s[i].0 == id,
    ensures
        find_row(s, id) == Some(s[i]),
    decreases s.len(),
{
    if i < s.len() - 1 {
        assert(s.last().0 != id);
        lemma_find_at(s.drop_last(), id, i);
    }
}

proof fn lemma_find_absent(s: Seq<BookmarkRow>, id: i64)
    requires
        forall|k: int| 0 <= k < s.len() ==> s[k].0 != id,
    ensures
        find_row(s, id) is None,
        without_id(s, id) == s,
    decreases s.len(),
{
    if s.len() > 0 {
        assert(s.last().0 != id);
        lemma_find_absent(s.drop_last(), id);
        assert(s.drop_last().push(s.last()) =~= s);
    }
}

proof fn lemma_find_some(s: Seq<BookmarkRow>, id: i64) -> (i: int)
    requires
        find_row(s, id) is Some,
    ensures
        0 <= i < s.len(),
        s[i].0 == id,
    decreases s.len(),
{
    if s.last().0 == id {
        s.len() - 1
    } else {
        lemma_find_some(s.drop_last(), id)
    }
}

proof fn lemma_without_at(s: Seq<BookmarkRow>, id: i64, i: int)
    requires
        ids_ascending(s),
        0 <= i < s.len(),
        s[i].0 == id,
    ensures
        without_id(s, id) == s.remove(i),
    decreases s.len(),
{
    if i == s.len() - 1 {
        assert forall|k: int| 0 <= k < s.drop_last().len() implies s.drop_last()[k].0 != id by {
            assert(s[k].0 < s[i].0);
        }
        lemma_find_absent(s.drop_last(), id);
        assert(s.drop_last() =~= s.remove(i));
    } else {
        assert(s[i].0 < s.last().0);
        lemma_without_at(s.drop_last(), id, i);
        assert(s.drop_last().remove(i).push(s.last()) =~= s.remove(i));
    }
}

/// A store of bookmarks: a SQLite table and, in memory, its rows in id order
/// together with the largest id the table has ever handed out.
pub struct Store {
    conn: Connection,
    rows: Vec<Bookmark>,
    high: i64,
    sent: Ghost<Seq<(Seq<char>, Seq<SqlValue>)>>,
}

impl View for Store {
    type V = Seq<BookmarkRow>;

    closed spec fn view(&self) -> Seq<BookmarkRow> {
        self.rows@.map_values(|b: Bookmark| b@)
    }
}

impl Store {
    /// The largest id ever handed out by this table, deleted rows included
    /// (0 before the first).
    /// The statements this store has sent to the table since it was opened,
    /// oldest first, each as its SQL text and its parameters.
    pub closed spec fn sent(&self) -> Seq<(Seq<char>, Seq<SqlValue>)> {
        self.sent@
    }

    pub closed spec fn high(&self) -> int {
        self.high as int
    }

    /// The store's invariant: ids ascend (so none is shared), none is above the
    /// largest id ever handed out, and every text is trimmed.
    pub open spec fn wf(&self) -> bool {
        &&& ids_ascending(self@)
        &&& 0 <= self.high()
        &&& ids_at_most(self@, self.high())
        &&& rows_trimmed(self@)
    }

    /// The number of bookmarks.
    pub fn len(&self) -> (r: usize)
        ensures
            r == self@.len(),
    {
        self.rows.len()
    }

    /// Position of the bookmark with id `id`, searching from the end.
    fn position(&self, id: i64) -> (r: Option<usize>)
        requires
            self.wf(),
        ensures
            r is None <==> find_row(self@, id) is None,
            r is Some ==> r->0 < self@.len() && self@[r->0 as int].0 == id
                && find_row(self@, id) == Some(self@[r->0 as int]),
    {
        let mut i: usize = self.rows.len();
        while i > 0
            invariant
                self.wf(),
                i <= self.rows@.len(),
                forall|k: int| i <= k < self@.len() ==> self@[k].0 != id,
            decreases i,
        {
            i = i - 1;
            if self.rows[i].id == id {
                proof {
                    lemma_find_at(self@, id, i as int);
                }
                return Some(i);
            }
        }
        proof {
            lemma_find_absent(self@, id);
        }
        None
    }
}


/// The statements that open a store, in order: create the table when it is
/// missing (an existing one is kept), read the id sequence, read the rows.
pub open spec fn opening_statements() -> Seq<(Seq<char>, Seq<SqlValue>)> {
    seq![
        ("CREATE TABLE IF NOT EXISTS bookmarks (id INTEGER PRIMARY KEY AUTOINCREMENT, name TEXT, url TEXT, description TEXT)"@, Seq::empty()),
        ("SELECT seq FROM sqlite_sequence WHERE name = 'bookmarks'"@, Seq::empty()),
        ("SELECT id, name, url, description FROM bookmarks ORDER BY id"@, Seq::empty()),
    ]
}

/// The statement that inserts a bookmark.
pub open spec fn insert_sql() -> Seq<char> {
    "INSERT INTO bookmarks (id, name, url, description) VALUES (?1, ?2, ?3, ?4)"@
}

/// The statement that overwrites a bookmark's texts.
pub open spec fn update_sql() -> Seq<char> {
    "UPDATE bookmarks SET name = ?1, url = ?2, description = ?3 WHERE id = ?4"@
}

/// The statement that deletes a bookmark.
pub open spec fn delete_sql() -> Seq<char> {
    "DELETE FROM bookmarks WHERE id = ?1"@
}

/// `e` is the insert statement for id `id` and the given texts.
pub open spec fn sent_insert(e: (Seq<char>, Seq<SqlValue>), id: i64, name: Seq<char>, url: Seq<char>, description: Seq<char>) -> bool {
    &&& e.0 == insert_sql()
    &&& e.1.len() == 4
    &&& is_int(e.1[0], id) && is_text(e.1[1], name) && is_text(e.1[2], url) && is_text(e.1[3], description)
}

/// `e` is the update statement for id `id` and the given texts.
pub open spec fn sent_update(e: (Seq<char>, Seq<SqlValue>), id: i64, name: Seq<char>, url: Seq<char>, description: Seq<char>) -> bool {
    &&& e.0 == update_sql()
    &&& e.1.len() == 4
    &&& is_text(e.1[0], name) && is_text(e.1[1], url) && is_text(e.1[2], description) && is_int(e.1[3], id)
}

/// `e` is the delete statement for id `id`.
pub open spec fn sent_delete(e: (Seq<char>, Seq<SqlValue>), id: i64) -> bool {
    &&& e.0 == delete_sql()
    &&& e.1.len() == 1
    &&& is_int(e.1[0], id)
}

/// `after` is `before` with one more statement sent.
pub open spec fn one_more(before: Seq<(Seq<char>, Seq<SqlValue>)>, after: Seq<(Seq<char>, Seq<SqlValue>)>) -> bool {
    after.len() == before.len() + 1 && after.drop_last() == before
}

/// The value is the integer `i`.
pub open spec fn is_int(v: SqlValue, i: i64) -> bool {
    v matches SqlValue::Int(x) && x == i
}

/// The value is the text `t`.
pub open spec fn is_text(v: SqlValue, t: Seq<char>) -> bool {
    v matches SqlValue::Text(x) && x@ == t
}

/// The parameters of the insert statement: id, name, url, description.
pub fn insert_values(id: i64, name: &String, url: &String, description: &String) -> (r: Vec<SqlValue>)
    ensures
        r@.len() == 4,
        is_int(r@[0], id),
        is_text(r@[1], name@),
        is_text(r@[2], url@),
        is_text(r@[3], description@),
{
    vec![SqlValue::Int(id), SqlValue::Text(name.clone()), SqlValue::Text(url.clone()), SqlValue::Text(description.clone())]
}

/// The parameters of the update statement: name, url, description, then the id.
pub fn update_values(id: i64, name: &String, url: &String, description: &String) -> (r: Vec<SqlValue>)
    ensures
        r@.len() == 4,
        is_text(r@[0], name@),
        is_text(r@[1], url@),
        is_text(r@[2], description@),
        is_int(r@[3], id),
{
    vec![SqlValue::Text(name.clone()), SqlValue::Text(url.clone()), SqlValue::Text(description.clone()), SqlValue::Int(id)]
}

/// The parameters of the delete statement: the id.
pub fn delete_values(id: i64) -> (r: Vec<SqlValue>)
    ensures
        r@.len() == 1,
        is_int(r@[0], id),
{
    vec![SqlValue::Int(id)]
}

fn is_trimmed_text(s: &String) -> (r: bool)
    ensures
        r == is_trimmed(s@),
{
    let t = trim_text(s.as_str());
    t == *s
}

/// Rows as read from the table become bookmarks, provided their ids strictly
/// ascend and their texts are trimmed; `None` otherwise.
pub fn load_rows(rows: Vec<(i64, String, String, String)>) -> (r: Option<Vec<Bookmark>>)
    ensures
        r is Some <==> (forall|i: int, j: int| 0 <= i < j < rows@.len() ==> rows@[i].0 < rows@[j].0)
            && (forall|i: int|
            0 <= i < rows@.len() ==> is_trimmed((#[trigger] rows@[i]).1@) && is_trimmed(rows@[i].2@)
                && is_trimmed(rows@[i].3@)),
        r is Some ==> r->0@.len() == rows@.len() && forall|i: int|
            0 <= i < rows@.len() ==> (#[trigger] r->0@[i])@ == (rows@[i].0, rows@[i].1@, rows@[i].2@, rows@[i].3@),
{
    let mut out: Vec<Bookmark> = Vec::new();
    let mut i: usize = 0;
    while i < rows.len()
        invariant
            i <= rows@.len(),
            out@.len() == i,
            forall|a: int, b: int| 0 <= a < b < i ==> rows@[a].0 < rows@[b].0,
            forall|k: int|
                0 <= k < i ==> is_trimmed((#[trigger] rows@[k]).1@) && is_trimmed(rows@[k].2@) && is_trimmed(
                    rows@[k].3@,
                ),
            forall|k: int| 0 <= k < i ==> (#[trigger] out@[k])@ == (rows@[k].0, rows@[k].1@, rows@[k].2@, rows@[k].3@),
        decreases rows@.len() - i,
    {
        let row = &rows[i];
        if i > 0 && rows[i - 1].0 >= row.0 {
            return None;
        }
        if !is_trimmed_text(&row.1) || !is_trimmed_text(&row.2) || !is_trimmed_text(&row.3) {
            proof {
                let k = i as int;
                assert(!(is_trimmed(rows@[k].1@) && is_trimmed(rows@[k].2@) && is_trimmed(rows@[k].3@)));
            }
            return None;
        }
        assert(is_trimmed(rows@[i as int].1@) && is_trimmed(rows@[i as int].2@) && is_trimmed(rows@[i as int].3@));
        out.push(Bookmark { id: row.0, name: row.1.clone(), url: row.2.clone(), description: row.3.clone() });
        i = i + 1;
    }
    Some(out)
}

/// The plain values of rows as read from the table.
pub open spec fn read_rows(rows: Seq<(i64, String, String, String)>) -> Seq<BookmarkRow> {
    rows.map_values(|r: (i64, String, String, String)| (r.0, r.1@, r.2@, r.3@))
}

/// Rows that a store can hold: ids ascend and every text is trimmed.
pub open spec fn rows_valid(rows: Seq<BookmarkRow>) -> bool {
    ids_ascending(rows) && rows_trimmed(rows)
}

/// The largest id handed out, from the table's id sequence (`None` when it
/// has none; a negative value counts as 0) and the rows read: the larger of
/// the two.
pub open spec fn opening_high(seq: Option<i64>, rows: Seq<BookmarkRow>) -> int {
    let s: int = match seq {
        Some(v) => if v > 0 {
            v as int
        } else {
            0
        },
        None => 0,
    };
    if rows.len() > 0 && rows.last().0 > s {
        rows.last().0 as int
    } else {
        s
    }
}

/// The store over `conn` holding the rows read from its table and the id
/// sequence read with them; `Open` when the rows are not in strictly ascending
/// id order or a text is not trimmed.
pub fn open_rows(conn: Connection, seq: Option<i64>, rows: Vec<(i64, String, String, String)>) -> (r: Result<Store, StoreError>)
    ensures
        r is Ok <==> rows_valid(read_rows(rows@)),
        r is Ok ==> r->Ok_0.wf() && r->Ok_0@ == read_rows(rows@) && r->Ok_0.high() == opening_high(
            seq,
            read_rows(rows@),
        ) && r->Ok_0.sent().len() == 0,
        r is Err ==> r->Err_0 == StoreError::Open,
{
    let ghost rv = read_rows(rows@);
    proof {
        assert forall|i: int| 0 <= i < rows@.len() implies #[trigger] rv[i] == (
            rows@[i].0,
            rows@[i].1@,
            rows@[i].2@,
            rows@[i].3@,
        ) by {}
    }
    let loaded = load_rows(rows);
    let v = match loaded {
        None => {
            proof {
                if rows_valid(rv) {
                    assert forall|i: int, j: int| 0 <= i < j < rows@.len() implies rows@[i].0 < rows@[j].0 by {
                        assert(rv[i].0 < rv[j].0);
                    }
                    assert forall|i: int| 0 <= i < rows@.len() implies is_trimmed((#[trigger] rows@[i]).1@)
                        && is_trimmed(rows@[i].2@) && is_trimmed(rows@[i].3@) by {
                        assert(rv[i] == (rows@[i].0, rows@[i].1@, rows@[i].2@, rows@[i].3@));
                    }
                }
            }
            return Err(StoreError::Open);
        },
        Some(v) => v,
    };
    let s: i64 = match seq {
        None => 0,
        Some(x) => if x > 0 {
            x
        } else {
            0
        },
    };
    let n = v.len();
    let high: i64 = if n > 0 && v[n - 1].id > s {
        v[n - 1].id
    } else {
        s
    };
    let store = Store { conn, rows: v, high, sent: Ghost(Seq::empty()) };
    proof {
        assert(store@ =~= rv);
        assert forall|k: int| 0 <= k < store@.len() implies #[trigger] store@[k].0 <= store.high() by {
            if k < n - 1 {
                assert(store@[k].0 < store@[n - 1].0);
            }
        }
        assert(rows_trimmed(store@));
    }
    Ok(store)
}

/// Opens the store on `conn`: creates the bookmark table when it is missing
/// (an existing one is kept as it is), then reads its id sequence and its rows
/// in id order and opens the store on them as `open_rows` does.
pub fn new_table(conn: Connection) -> (r: Result<Store, StoreError>)
    ensures
        r is Ok ==> r->Ok_0.wf() && r->Ok_0.sent() == opening_statements(),
        r is Err ==> r->Err_0 == StoreError::Open,
{
    let create = "CREATE TABLE IF NOT EXISTS bookmarks (id INTEGER PRIMARY KEY AUTOINCREMENT, name TEXT, url TEXT, description TEXT)";
    let sequence = "SELECT seq FROM sqlite_sequence WHERE name = 'bookmarks'";
    let select = "SELECT id, name, url, description FROM bookmarks ORDER BY id";
    let created = execute(&conn, create, &Vec::new());
    if created.is_err() {
        return Err(StoreError::Open);
    }
    let seq = match query_int(&conn, sequence) {
        Err(_) => return Err(StoreError::Open),
        Ok(seq) => seq,
    };
    match query_rows(&conn, select) {
        Err(_) => Err(StoreError::Open),
        Ok(rows) => match open_rows(conn, seq, rows) {
            Err(e) => Err(e),
            Ok(mut store) => {
                let ghost log = seq![(create@, Seq::empty()), (sequence@, Seq::empty()), (select@, Seq::empty())];
                store.sent = Ghost(log);
                Ok(store)
            },
        },
    }
}

/// Inserts a bookmark made of the trimmed texts under a fresh id, one past the
/// largest id the table ever handed out, and returns that id.
pub fn insert_entry(store: &mut Store, name: &str, url: &str, description: &str) -> (r: Result<i64, StoreError>)
    requires
        old(store).wf(),
    ensures
        final(store).wf(),
        final(store).high() >= old(store).high(),
        r is Ok ==> r->Ok_0 == old(store).high() + 1 && final(store).high() == r->Ok_0,
        r is Ok ==> final(store)@ == insert_row(old(store)@, r->Ok_0, name@, url@, description@),
        r is Ok ==> forall|k: int| 0 <= k < old(store)@.len() ==> #[trigger] old(store)@[k].0 < r->Ok_0,
        r is Err ==> final(store)@ == old(store)@ && final(store).high() == old(store).high(),
        r == Err::<i64, StoreError>(StoreError::Exhausted) <==> old(store).high() == i64::MAX,
        r is Err ==> r->Err_0 == StoreError::Exhausted || r->Err_0 == StoreError::Io,
        r == Err::<i64, StoreError>(StoreError::Exhausted) ==> final(store).sent() == old(store).sent(),
        r != Err::<i64, StoreError>(StoreError::Exhausted) ==> one_more(old(store).sent(), final(store).sent())
            && sent_insert(
            final(store).sent().last(),
            (old(store).high() + 1) as i64,
            trim(name@),
            trim(url@),
            trim(description@),
        ),
{
    if store.high == i64::MAX {
        return Err(StoreError::Exhausted);
    }
    let id: i64 = store.high + 1;
    let t_name = trim_text(name);
    let t_url = trim_text(url);
    let t_description = trim_text(description);
    let args = insert_values(id, &t_name, &t_url, &t_description);
    let sql = "INSERT INTO bookmarks (id, name, url, description) VALUES (?1, ?2, ?3, ?4)";
    let done = execute(&store.conn, sql, &args);
    store.sent = Ghost(store.sent@.push((sql@, args@)));
    assert(store.sent@.drop_last() =~= old(store).sent@);
    if done.is_err() {
        return Err(StoreError::Io);
    }
    let ghost before = store@;
    store.rows.push(Bookmark { id, name: t_name, url: t_url, description: t_description });
    store.high = id;
    proof {
        lemma_trim_idempotent(name@);
        lemma_trim_idempotent(url@);
        lemma_trim_idempotent(description@);
        assert(store@ =~= insert_row(before, id, name@, url@, description@));
        lemma_insert_ids_increase(before, old(store).high(), name@, url@, description@);
    }
    Ok(id)
}

/// The bookmark with id `id`.
pub fn get_entry(store: &Store, id: i64) -> (r: Result<Bookmark, StoreError>)
    requires
        store.wf(),
    ensures
        r is Ok <==> find_row(store@, id) is Some,
        r is Ok ==> find_row(store@, id) == Some(r->Ok_0@),
        r is Err ==> r->Err_0 == StoreError::NotFound,
{
    match store.position(id) {
        Some(i) => Ok(store.rows[i].duplicate()),
        None => Err(StoreError::NotFound),
    }
}

/// All bookmarks, in ascending id order.
pub fn get_iterator(store: &Store) -> (r: Vec<Bookmark>)
    ensures
        r@.map_values(|b: Bookmark| b@) == store@,
{
    let mut out: Vec<Bookmark> = Vec::new();
    let mut i: usize = 0;
    while i < store.rows.len()
        invariant
            i <= store.rows@.len(),
            out@.len() == i,
            forall|k: int| 0 <= k < i ==> (#[trigger] out@[k])@ == store.rows@[k]@,
        decreases store.rows@.len() - i,
    {
        out.push(store.rows[i].duplicate());
        i = i + 1;
    }
    assert(out@.map_values(|b: Bookmark| b@) =~= store@);
    out
}

/// Overwrites the three texts of the bookmark with id `id` by their trimmed
/// forms; the id stays.
pub fn update_entry(store: &mut Store, id: i64, name: &str, url: &str, description: &str) -> (r: Result<(), StoreError>)
    requires
        old(store).wf(),
    ensures
        final(store).wf(),
        final(store).high() == old(store).high(),
        r == Err::<(), StoreError>(StoreError::NotFound) <==> find_row(old(store)@, id) is None,
        r is Ok ==> final(store)@ == update_rows(old(store)@, id, name@, url@, description@),
        r is Err ==> final(store)@ == old(store)@,
        r is Err ==> r->Err_0 == StoreError::NotFound || r->Err_0 == StoreError::Io,
        r == Err::<(), StoreError>(StoreError::NotFound) ==> final(store).sent() == old(store).sent(),
        r != Err::<(), StoreError>(StoreError::NotFound) ==> one_more(old(store).sent(), final(store).sent())
            && sent_update(final(store).sent().last(), id, trim(name@), trim(url@), trim(description@)),
{
    let i = match store.position(id) {
        Some(i) => i,
        None => return Err(StoreError::NotFound),
    };
    let t_name = trim_text(name);
    let t_url = trim_text(url);
    let t_description = trim_text(description);
    let args = update_values(id, &t_name, &t_url, &t_description);
    let sql = "UPDATE bookmarks SET name = ?1, url = ?2, description = ?3 WHERE id = ?4";
    let done = execute(&store.conn, sql, &args);
    store.sent = Ghost(store.sent@.push((sql@, args@)));
    assert(store.sent@.drop_last() =~= old(store).sent@);
    if done.is_err() {
        return Err(StoreError::Io);
    }
    let ghost before = store@;
    store.rows.set(i, Bookmark { id, name: t_name, url: t_url, description: t_description });
    proof {
        assert forall|k: int| 0 <= k < before.len() && k != i implies before[k].0 != id by {
            if k < i {
                assert(before[k].0 < before[i as int].0);
            } else {
                assert(before[i as int].0 < before[k].0);
            }
        }
        assert(store@ =~= update_rows(before, id, name@, url@, description@));
        lemma_trim_idempotent(name@);
        lemma_trim_idempotent(url@);
        lemma_trim_idempotent(description@);
        assert forall|k: int| 0 <= k < store@.len() implies #[trigger] store@[k].0 <= store.high() by {
            assert(before[k].0 <= store.high());
        }
        assert(rows_trimmed(store@));
    }
    Ok(())
}

/// Deletes the bookmark with id `id`. An id that no bookmark has is no error:
/// nothing changes then. The deleted id is never handed out again.
pub fn remove_entry(store: &mut Store, id: i64) -> (r: Result<(), StoreError>)
    requires
        old(store).wf(),
    ensures
        final(store).wf(),
        final(store).high() == old(store).high(),
        find_row(old(store)@, id) is None ==> r is Ok,
        r is Ok ==> final(store)@ == without_id(old(store)@, id),
        r is Err ==> r->Err_0 == StoreError::Io && final(store)@ == old(store)@,
        find_row(old(store)@, id) is None ==> final(store).sent() == old(store).sent(),
        find_row(old(store)@, id) is Some ==> one_more(old(store).sent(), final(store).sent())
            && sent_delete(final(store).sent().last(), id),
{
    let i = match store.position(id) {
        Some(i) => i,
        None => {
            proof {
                if exists|k: int| 0 <= k < store@.len() && store@[k].0 == id {
                    let k = choose|k: int| 0 <= k < store@.len() && store@[k].0 == id;
                    lemma_find_at(store@, id, k);
                }
                lemma_find_absent(store@, id);
            }
            return Ok(());
        },
    };
    let args = delete_values(id);
    let sql = "DELETE FROM bookmarks WHERE id = ?1";
    let done = execute(&store.conn, sql, &args);
    store.sent = Ghost(store.sent@.push((sql@, args@)));
    assert(store.sent@.drop_last() =~= old(store).sent@);
    if done.is_err() {
        return Err(StoreError::Io);
    }
    let ghost before = store@;
    store.rows.remove(i);
    proof {
        lemma_without_at(before, id, i as int);
        assert(store@ =~= before.remove(i as int));
        assert forall|a: int, b: int| 0 <= a < b < store@.len() implies store@[a].0 < store@[b].0 by {
            let a0 = if a < i { a } else { a + 1 };
            let b0 = if b < i { b } else { b + 1 };
            assert(store@[a] == before[a0] && store@[b] == before[b0]);
        }
        assert forall|k: int| 0 <= k < store@.len() implies #[trigger] store@[k].0 <= store.high() && is_trimmed(
            store@[k].1,
        ) && is_trimmed(store@[k].2) && is_trimmed(store@[k].3) by {
            let k0 = if k < i { k } else { k + 1 };
            assert(store@[k] == before[k0]);
            assert(before[k0].0 <= store.high());
            assert(is_trimmed(before[k0].1));
        }
    }
    Ok(())
}

/// The largest id in the store, or `None` when it is empty.
pub fn last_id(store: &Store) -> (r: Option<i64>)
    requires
        store.wf(),
    ensures
        r == max_id(store@),
{
    let n = store.rows.len();
    if n == 0 {
        None
    } else {
        Some(store.rows[n - 1].id)
    }
}

/// Inserting a bookmark under an id above every stored one and then looking
/// that id up yields the bookmark with the trimmed name, url and description.
pub proof fn lemma_insert_then_fetch(s: Seq<BookmarkRow>, id: i64, name: Seq<char>, url: Seq<char>, description: Seq<char>)
    requires
        ids_ascending(s),
    ensures
        find_row(insert_row(s, id, name, url, description), id) == Some(
            (id, trim(name), trim(url), trim(description)),
        ),
{
    assert(insert_row(s, id, name, url, description).drop_last() =~= s);
}

/// An insert under one past the largest id ever handed out gets an id above
/// every stored one, keeps the ids ascending, and becomes the largest id.
pub proof fn lemma_insert_ids_increase(
    s: Seq<BookmarkRow>,
    high: int,
    name: Seq<char>,
    url: Seq<char>,
    description: Seq<char>,
)
    requires
        ids_ascending(s),
        ids_at_most(s, high),
        0 <= high < i64::MAX,
    ensures
        forall|k: int| 0 <= k < s.len() ==> #[trigger] s[k].0 < high + 1,
        ids_ascending(insert_row(s, (high + 1) as i64, name, url, description)),
        ids_at_most(insert_row(s, (high + 1) as i64, name, url, description), high + 1),
        max_id(insert_row(s, (high + 1) as i64, name, url, description)) == Some((high + 1) as i64),
{
    let t = insert_row(s, (high + 1) as i64, name, url, description);
    assert forall|i: int, j: int| 0 <= i < j < t.len() implies t[i].0 < t[j].0 by {
        if j == s.len() {
            assert(t[i] == s[i]);
            assert(s[i].0 <= high);
        }
    }
    assert forall|k: int| 0 <= k < t.len() implies #[trigger] t[k].0 <= high + 1 by {
        if k < s.len() {
            assert(t[k] == s[k]);
            assert(s[k].0 <= high);
        }
    }
}

/// Ids of successive inserts strictly increase and are never reused: the
/// largest id ever handed out never decreases (every operation keeps or raises
/// it, and an insert raises it to the id it returns), and an insert returns one
/// past it. So an id `second` returned after an id `first` exceeds it, whatever
/// was updated or deleted in between.
pub proof fn lemma_successive_ids_increase(first: int, high_after_first: int, high_before_second: int, second: int)
    requires
        first <= high_after_first,
        high_after_first <= high_before_second,
        second == high_before_second + 1,
    ensures
        first < second,
{
}

/// Deleting an id that no bookmark has changes nothing, so the number of
/// bookmarks stays the same.
pub proof fn lemma_remove_absent(s: Seq<BookmarkRow>, id: i64)
    requires
        ids_ascending(s),
        find_row(s, id) is None,
    ensures
        without_id(s, id) == s,
        without_id(s, id).len() == s.len(),
{
    assert forall|k: int| 0 <= k < s.len() implies s[k].0 != id by {
        if s[k].0 == id {
            lemma_find_at(s, id, k);
        }
    }
    lemma_find_absent(s, id);
}

/// After an update of a present id, looking it up yields exactly the new
/// (trimmed) texts under the same id: nothing of the old texts is kept.
pub proof fn lemma_update_then_fetch(
    s: Seq<BookmarkRow>,
    id: i64,
    name: Seq<char>,
    url: Seq<char>,
    description: Seq<char>,
)
    requires
        ids_ascending(s),
        find_row(s, id) is Some,
    ensures
        ids_ascending(update_rows(s, id, name, url, description)),
        find_row(update_rows(s, id, name, url, description), id) == Some(
            (id, trim(name), trim(url), trim(description)),
        ),
{
    let t = update_rows(s, id, name, url, description);
    let i = lemma_find_some(s, id);
    assert forall|a: int, b: int| 0 <= a < b < t.len() implies t[a].0 < t[b].0 by {
        assert(s[a].0 < s[b].0);
    }
    lemma_find_at(t, id, i);
}

} // verus!
