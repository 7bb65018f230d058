//! A bookmark keeper: a store of named links kept in SQLite, and a fuzzy
//! selector that narrows the stored links down to one as a query is typed.

mod cli;
mod failure;
mod html;
mod manager;
mod rank;
mod record;
mod render;
mod selector;
mod store;
mod text;

pub use cli::{Cli, Commands};
pub use html::{
    join_spaced, join_texts, link_bookmark, link_parts, link_rows, links_to_bookmarks, links_view,
    parse_bookmarks, parse_html_text, texts_view, title_result, title_text,
};
pub use failure::{parser_error, sql_driver_error, user_input_error, Failure};
pub use manager::{
    clipboard_entry, edit, import, insert_all, kept_or_new, lemma_fresh_inserts, merge_edit,
};
pub use rank::{
    fuzzy_score, is_ascii_text, is_ranking, lemma_ranking_exists, lemma_ranking_unique, order_by_score,
    ranking_upto, ranks_before, same_ignoring_case, score_line, subsequence_ignoring_case,
};
pub use record::{rows_of, Bookmark, BookmarkRow};
pub use render::{
    digit_char, digits, first_tagged, id_text, is_digit, lemma_line_identifies, lemma_line_tagged,
    line_of, render_line, resolve_selection, separator, tagged_with,
};
pub use selector::{
    downs_then_confirm, key_query, lemma_down_then_confirm, lemma_empty_query_selectable,
    ranking_of, run_keys, scores_for, search, Key, Outcome, Selector,
};
pub use store::{
    delete_values, find_row, get_entry, get_iterator, ids_ascending, ids_at_most, insert_entry,
    insert_row, insert_values, is_int, is_text, last_id, lemma_insert_ids_increase,
    lemma_insert_then_fetch, lemma_remove_absent, lemma_successive_ids_increase,
    lemma_update_then_fetch, load_rows, max_id, new_table, open_rows, opening_high, read_rows,
    rows_valid, opening_statements, delete_sql, insert_sql, one_more, sent_delete, sent_insert, sent_update, update_sql, remove_entry, rows_trimmed,
    update_entry, update_rows, update_values, without_id, SqlValue, Store, StoreError,
};
pub use text::{is_space, is_trimmed, lemma_trim_idempotent, trim, trim_end, trim_start, trim_text};
