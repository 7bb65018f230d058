use crate::record::{rows_of, Bookmark, BookmarkRow};
use crate::store::{max_id, one_more, sent_update, find_row, get_entry, insert_entry, insert_row, update_entry, update_rows, Store, StoreError};
use crate::text::{trim, trim_text};
use vstd::prelude::*;

verus! {

/// The text kept for a field on edit: the old one when the new one is blank
/// (empty once trimmed), else the new one.
pub open spec fn kept_or_new(old: Seq<char>, new: Seq<char>) -> Seq<char> {
    if trim(new).len() == 0 {
        old
    } else {
        new
    }
}

/// The fields to store when `old` is edited with the given answers: a blank
/// answer keeps the old value, any other answer replaces it.
pub fn merge_edit(old: &Bookmark, name: &str, url: &str, description: &str) -> (r: (String, String, String))
    ensures
        r.0@ == kept_or_new(old.name@, name@),
        r.1@ == kept_or_new(old.url@, url@),
        r.2@ == kept_or_new(old.description@, description@),
{
    (keep_or_take(&old.name, name), keep_or_take(&old.url, url), keep_or_take(&old.description, description))
}

fn keep_or_take(old: &String, new: &str) -> (r: String)
    ensures
        r@ == kept_or_new(old@, new@),
{
    let t = trim_text(new);
    if t.as_str().unicode_len() == 0 {
        old.clone()
    } else {
        new.to_owned()
    }
}

/// Edits the bookmark with id `id`: each blank answer keeps the stored value,
/// each other answer replaces it (trimmed, as the store does).
pub fn edit(store: &mut Store, id: i64, name: &str, url: &str, description: &str) -> (r: Result<(), StoreError>)
    requires
        old(store).wf(),
    ensures
        final(store).wf(),
        r == Err::<(), StoreError>(StoreError::NotFound) <==> find_row(old(store)@, id) is None,
        r is Ok ==> (find_row(old(store)@, id) matches Some(b) && final(store)@ == update_rows(
            old(store)@,
            id,
            kept_or_new(b.1, name@),
            kept_or_new(b.2, url@),
            kept_or_new(b.3, description@),
        )),
        find_row(old(store)@, id) is None ==> final(store).sent() == old(store).sent(),
        find_row(old(store)@, id) is Some ==> (find_row(old(store)@, id) matches Some(b) && one_more(
            old(store).sent(),
            final(store).sent(),
        ) && sent_update(
            final(store).sent().last(),
            id,
            trim(kept_or_new(b.1, name@)),
            trim(kept_or_new(b.2, url@)),
            trim(kept_or_new(b.3, description@)),
        )),
        final(store).high() == old(store).high(),
        r is Err ==> final(store)@ == old(store)@,
{
    let current = get_entry(store, id)?;
    let (n, u, d) = merge_edit(&current, name, url, description);
    update_entry(store, id, n.as_str(), u.as_str(), d.as_str())
}

/// The store's rows after inserting `entries` one by one, in order, when the
/// largest id handed out before was `high`: the k-th entry gets id `high + k`.
pub open spec fn insert_all(s: Seq<BookmarkRow>, high: int, entries: Seq<BookmarkRow>) -> Seq<BookmarkRow>
    decreases entries.len(),
{
    if entries.len() == 0 {
        s
    } else {
        let e = entries.last();
        insert_row(insert_all(s, high, entries.drop_last()), (high + entries.len()) as i64, e.1, e.2, e.3)
    }
}

/// From a fresh store (no rows, no id handed out yet), inserting k entries
/// one by one gives them ids 1, 2, ..., k in order, and the largest id is
/// then k.
pub proof fn lemma_fresh_inserts(es: Seq<BookmarkRow>)
    requires
        es.len() < i64::MAX,
    ensures
        insert_all(Seq::empty(), 0, es).len() == es.len(),
        forall|i: int| 0 <= i < es.len() ==> #[trigger] insert_all(Seq::empty(), 0, es)[i].0 == i + 1,
        es.len() > 0 ==> max_id(insert_all(Seq::empty(), 0, es)) == Some(es.len() as i64),
    decreases es.len(),
{
    if es.len() > 0 {
        lemma_fresh_inserts(es.drop_last());
        let prev = insert_all(Seq::empty(), 0, es.drop_last());
        assert forall|i: int| 0 <= i < es.len() implies #[trigger] insert_all(Seq::empty(), 0, es)[i].0 == i + 1 by {
            if i < es.len() - 1 {
                assert(insert_all(Seq::empty(), 0, es)[i] == prev[i]);
            }
        }
    }
}

/// Inserts each of `entries` with the store's own fresh id (their ids are not
/// used), in order, and returns how many were inserted. It stops at the first
/// insert that fails, leaving the earlier ones in place.
pub fn import(store: &mut Store, entries: &Vec<Bookmark>) -> (r: Result<usize, StoreError>)
    requires
        old(store).wf(),
    ensures
        final(store).wf(),
        entries@.len() == 0 ==> r == Ok::<usize, StoreError>(0),
        r is Ok ==> r->Ok_0 == entries@.len() && final(store)@ == insert_all(
            old(store)@,
            old(store).high(),
            rows_of(entries@),
        ) && final(store).high() == old(store).high() + entries@.len(),
        r is Err ==> exists|i: int|
            0 <= i < entries@.len() && final(store)@ == #[trigger] insert_all(
                old(store)@,
                old(store).high(),
                rows_of(entries@).subrange(0, i),
            ) && final(store).high() == old(store).high() + i,
        r == Err::<usize, StoreError>(StoreError::Exhausted) ==> final(store).high() == i64::MAX,
        old(store).high() + entries@.len() <= i64::MAX ==> r != Err::<usize, StoreError>(StoreError::Exhausted),
        r is Err ==> r->Err_0 == StoreError::Exhausted || r->Err_0 == StoreError::Io,
{
    let ghost es = rows_of(entries@);
    let ghost s0 = store@;
    let ghost h0 = store.high();
    let mut i: usize = 0;
    assert(es.subrange(0, 0) =~= Seq::<BookmarkRow>::empty());
    while i < entries.len()
        invariant
            store.wf(),
            i <= entries@.len(),
            es == rows_of(entries@),
            store@ == insert_all(s0, h0, es.subrange(0, i as int)),
            store.high() == h0 + i,
            h0 == old(store).high(),
            s0 == old(store)@,
        decreases entries@.len() - i,
    {
        let e = &entries[i];
        match insert_entry(store, e.name.as_str(), e.url.as_str(), e.description.as_str()) {
            Ok(_) => {},
            Err(err) => {
                proof {
                    assert(0 <= i < entries@.len() && store@ == insert_all(s0, h0, es.subrange(0, i as int)));
                }
                return Err(err);
            },
        }
        proof {
            let p = es.subrange(0, i + 1);
            assert(p.drop_last() =~= es.subrange(0, i as int));
            assert(p.last() == es[i as int]);
        }
        i = i + 1;
    }
    proof {
        assert(es.subrange(0, i as int) =~= es);
    }
    Ok(i)
}

/// The bookmark made from a url taken from the clipboard: named by the
/// page's title when one was found, else "None", and described as "Fetched".
pub fn clipboard_entry(url: &str, title: Option<String>) -> (r: (String, String, String))
    ensures
        title is Some ==> r.0@ == title->0@,
        title is None ==> r.0@ == "None"@,
        r.1@ == url@,
        r.2@ == "Fetched"@,
{
    let name = match title {
        Some(t) => t,
        None => "None".to_owned(),
    };
    (name, url.to_owned(), "Fetched".to_owned())
}

} // verus!
