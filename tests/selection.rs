use bookman::{
    clipboard_entry, insert_entry, join_texts, get_iterator, merge_edit, new_table, order_by_score, parse_bookmarks,
    parse_html_text, parser_error, remove_entry, render_line, resolve_selection, score_line, search,
    sql_driver_error, trim_text, user_input_error, Bookmark, Failure, Key, Outcome, Selector,
    StoreError,
};
use rusqlite::Connection;

fn bm(id: i64, name: &str, url: &str, description: &str) -> Bookmark {
    Bookmark::new(id, name, url, description)
}

fn type_query(sel: &mut Selector, q: &str) {
    for c in q.chars() {
        assert_eq!(sel.handle(Key::Type(c)), Outcome::Pending);
    }
}

#[test]
fn rendered_line_leads_with_id() {
    assert_eq!(render_line(&bm(12, "Rust", "https://r.test", "d")), "12 | Rust | https://r.test");
    assert_eq!(render_line(&bm(0, "", "", "")), "0 |  | ");
    assert_eq!(render_line(&bm(-305, "n", "u", "")), "-305 | n | u");
    assert_eq!(
        render_line(&bm(i64::MIN, "n", "u", "")),
        "-9223372036854775808 | n | u"
    );
}

#[test]
fn selection_resolves_by_id_not_by_text() {
    let cands = vec![bm(3, "same", "https://x.test", "d"), bm(4, "same", "https://x.test", "d")];
    let line = render_line(&cands[1]);
    assert_eq!(resolve_selection(&line, &cands), Some(cands[1].clone()));
    let line = render_line(&cands[0]);
    assert_eq!(resolve_selection(&line, &cands), Some(cands[0].clone()));
}

#[test]
fn selection_does_not_confuse_id_prefixes() {
    let cands = vec![bm(1, "a", "u", ""), bm(12, "a", "u", "")];
    assert_eq!(resolve_selection("12 | a | u", &cands), Some(cands[1].clone()));
    assert_eq!(resolve_selection("1 | a | u", &cands), Some(cands[0].clone()));
    assert_eq!(resolve_selection("7 | a | u", &cands), None);
    assert_eq!(resolve_selection("", &cands), None);
}

#[test]
fn id_query_picks_that_twin() {
    let cands = vec![bm(3, "same", "https://x.test", "d"), bm(4, "same", "https://x.test", "d")];
    let mut sel = Selector::new(cands.clone());
    type_query(&mut sel, "4");
    assert_eq!(sel.handle(Key::Confirm), Outcome::Done(Some(cands[1].clone())));
}

#[test]
fn id_query_among_shared_urls() {
    let mut store = new_table(Connection::open_in_memory().unwrap()).unwrap();
    for _ in 0..9 {
        insert_entry(&mut store, "Example", "https://x.test", "").unwrap();
    }
    for id in [1, 2, 3, 4, 6, 7, 8] {
        remove_entry(&mut store, id).unwrap();
    }
    let cands = get_iterator(&store);
    assert_eq!(cands.iter().map(|b| b.id).collect::<Vec<_>>(), vec![5, 9]);
    let mut sel = Selector::new(cands.clone());
    type_query(&mut sel, "9");
    assert_eq!(sel.handle(Key::Down), Outcome::Pending);
    assert_eq!(sel.handle(Key::Confirm), Outcome::Done(Some(cands[1].clone())));
}

#[test]
fn empty_query_shows_every_candidate() {
    let cands = vec![bm(1, "alpha", "a.test", ""), bm(2, "beta", "b.test", ""), bm(3, "gamma", "c.test", "")];
    let mut sel = Selector::new(cands.clone());
    assert_eq!(sel.handle(Key::Down), Outcome::Pending);
    assert_eq!(sel.handle(Key::Down), Outcome::Pending);
    assert_eq!(sel.handle(Key::Down), Outcome::Pending);
    assert_eq!(sel.handle(Key::Confirm), Outcome::Done(Some(cands[2].clone())));
    let mut sel = Selector::new(cands.clone());
    assert_eq!(sel.handle(Key::Up), Outcome::Pending);
    assert_eq!(sel.handle(Key::Confirm), Outcome::Done(Some(cands[0].clone())));
}

#[test]
fn no_match_keeps_loop_alive() {
    let cands = vec![bm(1, "alpha", "a.test", ""), bm(2, "beta", "b.test", "")];
    let mut sel = Selector::new(cands.clone());
    type_query(&mut sel, "qqq");
    assert_eq!(sel.handle(Key::Down), Outcome::Pending);
    assert_eq!(sel.handle(Key::Confirm), Outcome::Done(None));
    let mut sel = Selector::new(cands.clone());
    type_query(&mut sel, "qqq");
    for _ in 0..3 {
        assert_eq!(sel.handle(Key::Erase), Outcome::Pending);
    }
    assert_eq!(sel.handle(Key::Confirm), Outcome::Done(Some(cands[0].clone())));
}

#[test]
fn cancel_yields_nothing() {
    let mut sel = Selector::new(vec![bm(1, "alpha", "a.test", "")]);
    assert_eq!(sel.handle(Key::Cancel), Outcome::Done(None));
}

#[test]
fn no_candidates_confirm_yields_nothing() {
    let mut sel = Selector::new(Vec::new());
    assert_eq!(sel.handle(Key::Confirm), Outcome::Done(None));
}

#[test]
fn query_narrows_the_list() {
    let cands = vec![bm(1, "alpha", "a.test", ""), bm(2, "beta", "b.test", "")];
    let mut sel = Selector::new(cands.clone());
    type_query(&mut sel, "BET");
    assert_eq!(sel.handle(Key::Confirm), Outcome::Done(Some(cands[1].clone())));
}

#[test]
fn ranking_orders_by_score_then_position() {
    assert_eq!(order_by_score(&vec![Some(1), None, Some(5), Some(1)]), vec![2, 0, 3]);
    assert_eq!(order_by_score(&vec![None, None]), Vec::<usize>::new());
    assert_eq!(order_by_score(&vec![Some(-2), Some(0), Some(-2)]), vec![1, 0, 2]);
}

#[test]
fn matcher_scores() {
    assert_eq!(score_line("abc", ""), Some(0));
    assert_eq!(score_line("abc", "zz"), None);
    assert!(score_line("Rust Docs", "rd").is_some());
}

#[test]
fn trimming_removes_outer_whitespace() {
    assert_eq!(trim_text("  a b \t\n"), "a b");
    assert_eq!(trim_text("\u{3000}x\u{a0}"), "x");
    assert_eq!(trim_text("   "), "");
}

#[test]
fn merge_keeps_blank_fields() {
    let old = bm(1, "Rust Docs", "https://doc.rust-lang.org", "lang docs");
    let (n, u, d) = merge_edit(&old, "  ", "https://doc.rust-lang.org/book", "");
    assert_eq!((n.as_str(), u.as_str(), d.as_str()), ("Rust Docs", "https://doc.rust-lang.org/book", "lang docs"));
}

#[test]
fn clipboard_entry_names() {
    let (n, u, d) = clipboard_entry("https://a.test", Some("Title".to_string()));
    assert_eq!((n.as_str(), u.as_str(), d.as_str()), ("Title", "https://a.test", "Fetched"));
    let (n, _, _) = clipboard_entry("https://a.test", None);
    assert_eq!(n, "None");
}

#[test]
fn html_title_is_trimmed() {
    let page = "<html><head><title>  Hello World \n</title></head><body></body></html>";
    assert_eq!(parse_html_text(page), Ok("Hello World".to_string()));
    assert_eq!(
        parse_html_text("<html><body>no title</body></html>"),
        Err(Failure::Parser("Title not found".to_string()))
    );
}

#[test]
fn bookmark_file_links() {
    let html = "<DL><p><DT><A HREF=\"https://a.test\" ADD_DATE=\"1\">A site</A><DT><A>no href</A></DL>";
    assert_eq!(
        parse_bookmarks(html),
        vec![bm(0, "A site", "https://a.test", ""), bm(0, "no href", "", "")]
    );
    assert_eq!(parse_bookmarks("<p>nothing</p>"), Vec::<Bookmark>::new());
}

#[test]
fn failures_and_headings() {
    assert_eq!(user_input_error(), Failure::UserInput);
    assert_eq!(sql_driver_error(StoreError::Io), Failure::Sql(StoreError::Io));
    assert_eq!(parser_error("bad".to_string()), Failure::Parser("bad".to_string()));
    assert_eq!(user_input_error().heading(), "User input error");
    assert_eq!(sql_driver_error(StoreError::NotFound).heading(), "SQL Error");
    assert_eq!(parser_error(String::new()).heading(), "Parser Error");
}

#[test]
fn search_replays_keys() {
    let cands = vec![bm(5, "x", "https://x.test", ""), bm(9, "x", "https://x.test", "")];
    assert_eq!(search(cands.clone(), &vec![Key::Type('9'), Key::Confirm]), Some(cands[1].clone()));
    assert_eq!(search(cands.clone(), &vec![Key::Type('9'), Key::Down, Key::Confirm]), Some(cands[1].clone()));
    assert_eq!(search(cands.clone(), &vec![Key::Down, Key::Confirm]), Some(cands[1].clone()));
    assert_eq!(search(cands.clone(), &vec![Key::Confirm]), Some(cands[0].clone()));
    assert_eq!(search(cands.clone(), &vec![Key::Type('q'), Key::Confirm]), None);
    assert_eq!(search(cands.clone(), &vec![Key::Cancel, Key::Confirm]), None);
    assert_eq!(search(cands.clone(), &vec![Key::Type('9')]), None);
    assert_eq!(search(Vec::new(), &vec![Key::Confirm]), None);
}

#[test]
fn shown_list_follows_the_query() {
    let cands = vec![bm(5, "x", "https://x.test", ""), bm(9, "x", "https://x.test", "")];
    let mut sel = Selector::new(cands.clone());
    assert_eq!(sel.shown(), cands);
    assert_eq!(sel.handle(Key::Type('9')), Outcome::Pending);
    assert_eq!(sel.shown(), vec![cands[1].clone()]);
    assert_eq!(sel.query_text(), "9");
    assert_eq!(sel.highlighted(), 0);
    assert_eq!(sel.handle(Key::Type('z')), Outcome::Pending);
    assert_eq!(sel.shown(), Vec::<Bookmark>::new());
    assert_eq!(sel.handle(Key::Erase), Outcome::Pending);
    assert_eq!(sel.shown(), vec![cands[1].clone()]);
}

#[test]
fn link_texts_are_joined_by_spaces() {
    let html = "<DL><DT><A HREF=\"https://a.test\">one<b>two</b>three</A></DL>";
    assert_eq!(parse_bookmarks(html), vec![bm(0, "one two three", "https://a.test", "")]);
    assert_eq!(join_texts(&vec!["a".to_string(), "b".to_string(), "c".to_string()]), "a b c");
    assert_eq!(join_texts(&vec!["x".to_string()]), "x");
    assert_eq!(join_texts(&Vec::new()), "");
}
