use bookman::{
    delete_values, edit, get_entry, get_iterator, import, insert_entry, insert_values, last_id,
    new_table, open_rows, parse_bookmarks, remove_entry, update_entry, update_values, Bookmark, SqlValue,
    Store, StoreError,
};
use rusqlite::{Connection, OpenFlags};

fn open_store() -> Store {
    new_table(Connection::open_in_memory().unwrap()).unwrap()
}

fn bm(id: i64, name: &str, url: &str, description: &str) -> Bookmark {
    Bookmark::new(id, name, url, description)
}

#[test]
fn insert_then_fetch_returns_trimmed_fields() {
    let mut store = open_store();
    let id = insert_entry(&mut store, "  Rust Docs ", "\thttps://doc.rust-lang.org\n", " lang docs ").unwrap();
    assert_eq!(id, 1);
    let got = get_entry(&store, id).unwrap();
    assert_eq!(got, bm(1, "Rust Docs", "https://doc.rust-lang.org", "lang docs"));
}

#[test]
fn ids_increase_and_last_id_follows() {
    let mut store = open_store();
    assert_eq!(last_id(&store), None);
    let a = insert_entry(&mut store, "a", "u", "d").unwrap();
    let b = insert_entry(&mut store, "b", "u", "d").unwrap();
    let c = insert_entry(&mut store, "c", "u", "d").unwrap();
    assert_eq!((a, b, c), (1, 2, 3));
    assert_eq!(last_id(&store), Some(3));
}

#[test]
fn next_id_is_past_every_id_handed_out() {
    let mut store = open_store();
    insert_entry(&mut store, "a", "u", "d").unwrap();
    insert_entry(&mut store, "b", "u", "d").unwrap();
    remove_entry(&mut store, 1).unwrap();
    assert_eq!(insert_entry(&mut store, "c", "u", "d").unwrap(), 3);
}

#[test]
fn delete_of_absent_id_is_success() {
    let mut store = open_store();
    insert_entry(&mut store, "a", "u", "d").unwrap();
    assert_eq!(remove_entry(&mut store, 42), Ok(()));
    assert_eq!(get_iterator(&store).len(), 1);
    assert_eq!(store.len(), 1);
}

#[test]
fn delete_removes_the_row() {
    let mut store = open_store();
    insert_entry(&mut store, "a", "u", "d").unwrap();
    insert_entry(&mut store, "b", "v", "e").unwrap();
    assert_eq!(remove_entry(&mut store, 1), Ok(()));
    assert_eq!(get_entry(&store, 1), Err(StoreError::NotFound));
    assert_eq!(get_iterator(&store), vec![bm(2, "b", "v", "e")]);
}

#[test]
fn update_overwrites_all_fields() {
    let mut store = open_store();
    let id = insert_entry(&mut store, "old name", "old url", "old desc").unwrap();
    assert_eq!(update_entry(&mut store, id, "a", "b", "c"), Ok(()));
    assert_eq!(get_entry(&store, id).unwrap(), bm(id, "a", "b", "c"));
}

#[test]
fn update_overwrites_with_empty_text() {
    let mut store = open_store();
    let id = insert_entry(&mut store, "n", "u", "d").unwrap();
    assert_eq!(update_entry(&mut store, id, "", " ", "x"), Ok(()));
    assert_eq!(get_entry(&store, id).unwrap(), bm(id, "", "", "x"));
}

#[test]
fn update_of_absent_id_is_not_found() {
    let mut store = open_store();
    assert_eq!(update_entry(&mut store, 7, "a", "b", "c"), Err(StoreError::NotFound));
}

#[test]
fn fetch_of_absent_id_is_not_found() {
    let store = open_store();
    assert_eq!(get_entry(&store, 1), Err(StoreError::NotFound));
}

#[test]
fn fetch_all_after_one_insert() {
    let mut store = open_store();
    insert_entry(&mut store, "Rust Docs", "https://doc.rust-lang.org", "lang docs").unwrap();
    assert_eq!(
        get_iterator(&store),
        vec![bm(1, "Rust Docs", "https://doc.rust-lang.org", "lang docs")]
    );
}

#[test]
fn edit_keeps_old_value_for_blank_answers() {
    let mut store = open_store();
    insert_entry(&mut store, "Rust Docs", "https://doc.rust-lang.org", "lang docs").unwrap();
    assert_eq!(edit(&mut store, 1, "", "https://doc.rust-lang.org/book", ""), Ok(()));
    assert_eq!(
        get_iterator(&store),
        vec![bm(1, "Rust Docs", "https://doc.rust-lang.org/book", "lang docs")]
    );
}

#[test]
fn edit_of_absent_id_is_not_found() {
    let mut store = open_store();
    assert_eq!(edit(&mut store, 3, "a", "b", "c"), Err(StoreError::NotFound));
}

#[test]
fn largest_id_exhausts_inserts() {
    let conn = Connection::open_in_memory().unwrap();
    conn.execute(
        "CREATE TABLE bookmarks (id INTEGER PRIMARY KEY AUTOINCREMENT, name TEXT, url TEXT, description TEXT)",
        [],
    )
    .unwrap();
    conn.execute(
        "INSERT INTO bookmarks (id, name, url, description) VALUES (?1, 'n', 'u', 'd')",
        [i64::MAX],
    )
    .unwrap();
    let mut store = new_table(conn).unwrap();
    assert_eq!(last_id(&store), Some(i64::MAX));
    assert_eq!(insert_entry(&mut store, "a", "b", "c"), Err(StoreError::Exhausted));
    assert_eq!(store.len(), 1);
}

#[test]
fn read_only_database_fails_to_open() {
    let conn = Connection::open_in_memory_with_flags(OpenFlags::SQLITE_OPEN_READ_ONLY).unwrap();
    assert!(matches!(new_table(conn), Err(StoreError::Open)));
}

#[test]
fn import_inserts_with_fresh_ids() {
    let mut store = open_store();
    insert_entry(&mut store, "first", "u", "d").unwrap();
    let html = "<DL><DT><A HREF=\"https://a.test\">A site</A><DT><A HREF=\"https://b.test\">B</A></DL>";
    let entries = parse_bookmarks(html);
    assert_eq!(import(&mut store, &entries), Ok(2));
    assert_eq!(
        get_iterator(&store),
        vec![bm(1, "first", "u", "d"), bm(2, "A site", "https://a.test", ""), bm(3, "B", "https://b.test", "")]
    );
}

#[test]
fn deleted_largest_id_is_not_reused() {
    let mut store = open_store();
    assert_eq!(insert_entry(&mut store, "a", "u", "d"), Ok(1));
    assert_eq!(remove_entry(&mut store, 1), Ok(()));
    assert_eq!(last_id(&store), None);
    assert_eq!(insert_entry(&mut store, "b", "u", "d"), Ok(2));
}

#[test]
fn ids_handed_out_before_opening_are_not_reused() {
    let conn = Connection::open_in_memory().unwrap();
    conn.execute(
        "CREATE TABLE bookmarks (id INTEGER PRIMARY KEY AUTOINCREMENT, name TEXT, url TEXT, description TEXT)",
        [],
    )
    .unwrap();
    conn.execute("INSERT INTO bookmarks (name, url, description) VALUES ('a', 'u', 'd')", []).unwrap();
    conn.execute("INSERT INTO bookmarks (name, url, description) VALUES ('b', 'u', 'd')", []).unwrap();
    conn.execute("DELETE FROM bookmarks", []).unwrap();
    let mut store = new_table(conn).unwrap();
    assert_eq!(get_iterator(&store), Vec::<Bookmark>::new());
    assert_eq!(insert_entry(&mut store, "c", "u", "d"), Ok(3));
}

#[test]
fn untrimmed_stored_text_fails_to_open() {
    let conn = Connection::open_in_memory().unwrap();
    conn.execute(
        "CREATE TABLE bookmarks (id INTEGER PRIMARY KEY AUTOINCREMENT, name TEXT, url TEXT, description TEXT)",
        [],
    )
    .unwrap();
    conn.execute("INSERT INTO bookmarks (name, url, description) VALUES (' a', 'u', 'd')", []).unwrap();
    assert!(matches!(new_table(conn), Err(StoreError::Open)));
}

#[test]
fn import_of_nothing_inserts_nothing() {
    let mut store = open_store();
    assert_eq!(import(&mut store, &Vec::new()), Ok(0));
    assert_eq!(store.len(), 0);
}

fn text_of(v: &SqlValue) -> &str {
    match v {
        SqlValue::Text(t) => t.as_str(),
        SqlValue::Int(_) => panic!("not a text"),
    }
}

fn int_of(v: &SqlValue) -> i64 {
    match v {
        SqlValue::Int(i) => *i,
        SqlValue::Text(_) => panic!("not an integer"),
    }
}

#[test]
fn statement_values_are_in_column_order() {
    let (n, u, d) = ("n".to_string(), "u".to_string(), "d".to_string());
    let v = insert_values(4, &n, &u, &d);
    assert_eq!((int_of(&v[0]), text_of(&v[1]), text_of(&v[2]), text_of(&v[3])), (4, "n", "u", "d"));
    let v = update_values(4, &n, &u, &d);
    assert_eq!((text_of(&v[0]), text_of(&v[1]), text_of(&v[2]), int_of(&v[3])), ("n", "u", "d", 4));
    let v = delete_values(9);
    assert_eq!((v.len(), int_of(&v[0])), (1, 9));
}

fn row(id: i64, name: &str, url: &str, description: &str) -> (i64, String, String, String) {
    (id, name.to_string(), url.to_string(), description.to_string())
}

#[test]
fn open_rows_on_empty_table_starts_at_one() {
    let conn = Connection::open_in_memory().unwrap();
    conn.execute(
        "CREATE TABLE bookmarks (id INTEGER PRIMARY KEY AUTOINCREMENT, name TEXT, url TEXT, description TEXT)",
        [],
    )
    .unwrap();
    let mut store = open_rows(conn, None, Vec::new()).unwrap();
    assert_eq!(get_iterator(&store), Vec::<Bookmark>::new());
    assert_eq!(last_id(&store), None);
    assert_eq!(insert_entry(&mut store, "", "   ", "\n"), Ok(1));
    assert_eq!(get_iterator(&store), vec![bm(1, "", "", "")]);
}

#[test]
fn open_rows_keeps_rows_and_sequence() {
    let rows = vec![row(2, "a", "u", "d"), row(5, "b", "v", "e")];
    let store = open_rows(Connection::open_in_memory().unwrap(), Some(9), rows).unwrap();
    assert_eq!(get_iterator(&store), vec![bm(2, "a", "u", "d"), bm(5, "b", "v", "e")]);
    assert_eq!(last_id(&store), Some(5));
}

#[test]
fn open_rows_rejects_disorder_and_untrimmed_text() {
    let conn = Connection::open_in_memory().unwrap();
    assert!(matches!(open_rows(conn, None, vec![row(5, "a", "u", "d"), row(2, "b", "v", "e")]), Err(StoreError::Open)));
    let conn = Connection::open_in_memory().unwrap();
    assert!(matches!(open_rows(conn, None, vec![row(1, "a ", "u", "d")]), Err(StoreError::Open)));
}
