use std::path::PathBuf;

use checkbookmark::entries::CheckResult;
use checkbookmark::tui::{Action, App, ChromeGate, EditField, FileEdit, Key, KeyInput, SortMode};

fn result(folder: &str, name: &str, url: &str, status: &str, valid: bool) -> CheckResult {
    CheckResult {
        folder: folder.to_string(),
        name: name.to_string(),
        url: url.to_string(),
        status: status.to_string(),
        is_valid: valid,
    }
}

fn key(c: char) -> KeyInput {
    KeyInput { code: Key::Char(c), ctrl: false }
}

fn ctrl(c: char) -> KeyInput {
    KeyInput { code: Key::Char(c), ctrl: true }
}

fn special(k: Key) -> KeyInput {
    KeyInput { code: k, ctrl: false }
}

fn app_with(results: Vec<CheckResult>) -> App {
    let mut app = App::new("Default".to_string(), results.len(), 10, 3, PathBuf::from("/tmp/Bookmarks"));
    let mut done = 0;
    for r in results {
        done += 1;
        app.record_result(r, done);
    }
    app
}

fn sample() -> App {
    app_with(vec![
        result("Bar", "Rust", "https://rust-lang.org/", "200 OK", true),
        result("Bar/Dev", "Crates", "https://crates.io/", "404 Not Found", false),
        result("Other", "Alpha", "https://alpha.example/", "TIMEOUT", false),
        result("Bar", "Empty", "folder://Bar/Empty", "EMPTY_FOLDER", false),
    ])
}

fn names(app: &App) -> Vec<String> {
    app.sorted_results().iter().map(|r| r.name.clone()).collect()
}

#[test]
fn new_app_highlights_first_row_only_with_entries() {
    let app = App::new("P".to_string(), 3, 5, 2, PathBuf::from("x"));
    assert_eq!(app.selected, Some(0));
    assert_eq!(app.sort_mode, SortMode::Unsorted);
    assert!(app.sort_ascending);
    let empty = App::new("P".to_string(), 0, 5, 2, PathBuf::from("x"));
    assert_eq!(empty.selected, None);
}

#[test]
fn recording_counts_checked_and_invalid() {
    let app = sample();
    assert_eq!(app.results.len(), 4);
    assert_eq!(app.checked, 4);
    assert_eq!(app.invalid, 3);
}

#[test]
fn moving_the_highlight() {
    let mut app = sample();
    assert_eq!(app.handle_key(&key('j')), Action::Nothing);
    assert_eq!(app.selected, Some(1));
    app.handle_key(&special(Key::Down));
    app.handle_key(&special(Key::Down));
    app.handle_key(&special(Key::Down));
    assert_eq!(app.selected, Some(3));
    app.handle_key(&key('k'));
    assert_eq!(app.selected, Some(2));
    app.handle_key(&key('g'));
    assert_eq!(app.selected, Some(0));
    app.handle_key(&special(Key::Up));
    assert_eq!(app.selected, Some(0));
    app.handle_key(&key('G'));
    assert_eq!(app.selected, Some(3));
    app.handle_key(&special(Key::PageUp));
    assert_eq!(app.selected, Some(0));
    app.handle_key(&ctrl('d'));
    assert_eq!(app.selected, Some(3));
    app.handle_key(&ctrl('u'));
    assert_eq!(app.selected, Some(0));
}

#[test]
fn paging_moves_twenty_rows() {
    let mut rows = Vec::new();
    for i in 0..30 {
        rows.push(result("F", &format!("n{i}"), &format!("https://{i}.example/"), "200 OK", true));
    }
    let mut app = app_with(rows);
    app.handle_key(&special(Key::PageDown));
    assert_eq!(app.selected, Some(20));
    app.handle_key(&special(Key::PageDown));
    assert_eq!(app.selected, Some(29));
    app.handle_key(&special(Key::PageUp));
    assert_eq!(app.selected, Some(9));
}

#[test]
fn sorting_by_name_and_flipping_direction() {
    let mut app = sample();
    app.handle_key(&key('j'));
    app.handle_key(&key('n'));
    assert_eq!(app.sort_mode, SortMode::Name);
    assert_eq!(app.selected, Some(0));
    assert_eq!(names(&app), vec!["Alpha", "Crates", "Empty", "Rust"]);
    app.handle_key(&key('n'));
    assert!(!app.sort_ascending);
    assert_eq!(names(&app), vec!["Rust", "Empty", "Crates", "Alpha"]);
    app.handle_key(&key('n'));
    assert!(app.sort_ascending);
}

#[test]
fn sorting_by_status_puts_invalid_first_and_keeps_ties_in_order() {
    let mut app = app_with(vec![
        result("A", "one", "https://1/", "404 Not Found", false),
        result("A", "two", "https://2/", "200 OK", true),
        result("A", "three", "https://3/", "404 Not Found", false),
    ]);
    app.handle_key(&key('s'));
    assert_eq!(names(&app), vec!["one", "three", "two"]);
    app.handle_key(&key('s'));
    assert_eq!(names(&app), vec!["two", "one", "three"]);
}

#[test]
fn sorting_by_folder_and_url_ignores_case() {
    let mut app = app_with(vec![
        result("b", "x", "https://B.example/", "200 OK", true),
        result("A", "y", "https://a.example/", "200 OK", true),
    ]);
    app.handle_key(&key('f'));
    assert_eq!(names(&app), vec!["y", "x"]);
    app.handle_key(&key('u'));
    assert_eq!(app.sort_mode, SortMode::Url);
    assert_eq!(names(&app), vec!["y", "x"]);
}

#[test]
fn search_filters_rows_case_insensitively() {
    let mut app = sample();
    app.handle_key(&key('/'));
    assert!(app.search_mode);
    for c in "RUST".chars() {
        app.handle_key(&key(c));
    }
    assert_eq!(app.search_query, "RUST");
    assert_eq!(names(&app), vec!["Rust"]);
    app.handle_key(&special(Key::Enter));
    assert!(!app.search_mode);
    assert_eq!(app.row_count(), 1);
    app.handle_key(&special(Key::Esc));
    assert_eq!(app.search_query, "");
    assert_eq!(app.row_count(), 4);
}

#[test]
fn search_matches_status_and_folder() {
    let mut app = sample();
    app.handle_key(&key('/'));
    for c in "timeout".chars() {
        app.handle_key(&key(c));
    }
    assert_eq!(names(&app), vec!["Alpha"]);
    app.handle_key(&special(Key::Esc));
    assert!(!app.search_mode);
    assert_eq!(app.row_count(), 4);
    app.handle_key(&key('/'));
    for c in "dev".chars() {
        app.handle_key(&key(c));
    }
    assert_eq!(names(&app), vec!["Crates"]);
}

#[test]
fn search_typing_then_backspace_restores_query() {
    let mut app = sample();
    app.handle_key(&key('/'));
    app.handle_key(&key('a'));
    let before = app.search_query.clone();
    app.handle_key(&key('z'));
    app.handle_key(&special(Key::Backspace));
    assert_eq!(app.search_query, before);
    assert_eq!(app.selected, Some(0));
}

#[test]
fn marking_rows_with_space_and_all_with_v() {
    let mut app = sample();
    app.handle_key(&key(' '));
    assert_eq!(app.selected_urls, vec!["https://rust-lang.org/".to_string()]);
    assert_eq!(app.selected, Some(1));
    app.handle_key(&key('k'));
    app.handle_key(&key(' '));
    assert!(app.selected_urls.is_empty());
    app.handle_key(&key('V'));
    assert_eq!(app.selected_urls.len(), 4);
    app.handle_key(&key('V'));
    assert!(app.selected_urls.is_empty());
}

#[test]
fn mark_all_adds_only_missing_urls() {
    let mut app = sample();
    app.handle_key(&key('j'));
    app.handle_key(&key(' '));
    app.handle_key(&key('V'));
    assert_eq!(
        app.selected_urls,
        vec![
            "https://crates.io/".to_string(),
            "https://rust-lang.org/".to_string(),
            "https://alpha.example/".to_string(),
            "folder://Bar/Empty".to_string(),
        ]
    );
}

#[test]
fn delete_highlighted_row_after_confirmation() {
    let mut app = sample();
    app.handle_key(&key('j'));
    assert_eq!(app.handle_key(&key('d')), Action::Nothing);
    assert!(app.pending_d);
    assert_eq!(app.handle_key(&key('d')), Action::CheckChrome(ChromeGate::Delete));
    app.chrome_checked(ChromeGate::Delete, false);
    assert!(app.confirm_delete);
    assert_eq!(app.delete_target_url, "https://crates.io/");
    assert_eq!(app.handle_key(&key('y')), Action::Nothing);
    assert_eq!(app.staged_edits, vec![FileEdit::DeleteBookmark { url: "https://crates.io/".to_string() }]);
    assert!(!app.confirm_delete);
    assert_eq!(app.results.len(), 3);
    assert_eq!(app.total, 3);
    assert_eq!(app.selected, Some(1));
    assert_eq!(app.delete_target_url, "");
    assert_eq!(app.handle_key(&key(':')), Action::Nothing);
    assert!(app.pending_colon);
    assert_eq!(
        app.handle_key(&key('w')),
        Action::Save(vec![FileEdit::DeleteBookmark { url: "https://crates.io/".to_string() }])
    );
    assert!(app.staged_edits.is_empty());
    assert!(!app.pending_colon);
}

#[test]
fn colon_then_other_key_keeps_staged_edits() {
    let mut app = sample();
    app.handle_key(&key('d'));
    app.handle_key(&key('d'));
    app.chrome_checked(ChromeGate::Delete, false);
    app.handle_key(&key('y'));
    app.handle_key(&key(':'));
    assert_eq!(app.handle_key(&key('x')), Action::Nothing);
    assert!(!app.pending_colon);
    assert_eq!(app.staged_edits.len(), 1);
    app.handle_key(&key(':'));
    assert_eq!(app.handle_key(&key('w')), Action::Save(vec![FileEdit::DeleteBookmark {
        url: "https://rust-lang.org/".to_string()
    }]));
}

#[test]
fn write_with_nothing_staged_saves_nothing_but_exports() {
    let mut app = sample();
    app.handle_key(&key(':'));
    assert_eq!(app.handle_key(&key('w')), Action::Save(vec![]));
}

#[test]
fn delete_last_row_moves_highlight_up() {
    let mut app = sample();
    app.handle_key(&key('G'));
    app.handle_key(&key('d'));
    app.handle_key(&key('d'));
    app.chrome_checked(ChromeGate::Delete, false);
    assert_eq!(app.handle_key(&key('y')), Action::Nothing);
    assert_eq!(
        app.staged_edits,
        vec![FileEdit::DeleteEmptyFolder { parent: "Bar".to_string(), name: "Empty".to_string() }]
    );
    assert_eq!(app.selected, Some(2));
}

#[test]
fn delete_marked_rows_and_cancel() {
    let mut app = sample();
    app.handle_key(&key(' '));
    app.handle_key(&key(' '));
    app.handle_key(&key('d'));
    app.handle_key(&key('d'));
    app.chrome_checked(ChromeGate::Delete, false);
    assert_eq!(app.delete_target_url, "2 bookmarks selected");
    assert_eq!(app.handle_key(&key('n')), Action::Nothing);
    assert!(!app.confirm_delete);
    assert_eq!(app.delete_target_url, "");
    assert_eq!(app.results.len(), 4);
    app.handle_key(&key('d'));
    app.handle_key(&key('d'));
    app.chrome_checked(ChromeGate::Delete, false);
    assert_eq!(app.handle_key(&key('y')), Action::Nothing);
    assert_eq!(
        app.staged_edits,
        vec![
            FileEdit::DeleteBookmark { url: "https://rust-lang.org/".to_string() },
            FileEdit::DeleteBookmark { url: "https://crates.io/".to_string() },
        ]
    );
    assert_eq!(app.results.len(), 2);
    assert!(app.selected_urls.is_empty());
}

#[test]
fn d_then_other_key_only_forgets_the_d() {
    let mut app = sample();
    app.handle_key(&key('d'));
    assert_eq!(app.handle_key(&key('x')), Action::Nothing);
    assert!(!app.pending_d);
    app.handle_key(&key('d'));
    app.handle_key(&ctrl('d'));
    assert_eq!(app.selected, Some(3));
}

#[test]
fn chrome_running_shows_warning_closed_by_any_key() {
    let mut app = sample();
    assert_eq!(app.handle_key(&key('e')), Action::CheckChrome(ChromeGate::Edit));
    app.chrome_checked(ChromeGate::Edit, true);
    assert!(app.chrome_warning);
    assert!(!app.edit_mode);
    assert_eq!(app.handle_key(&key('q')), Action::Nothing);
    assert!(!app.chrome_warning);
}

#[test]
fn edit_popup_saves_rename_and_move() {
    let mut app = sample();
    app.handle_key(&key('e'));
    app.chrome_checked(ChromeGate::Edit, false);
    assert!(app.edit_mode);
    assert_eq!(app.edit_field, EditField::Folder);
    assert_eq!(app.edit_folder, "Bar");
    assert_eq!(app.edit_cursor, 3);
    app.handle_key(&key('2'));
    assert_eq!(app.edit_folder, "Bar2");
    app.handle_key(&special(Key::Tab));
    assert_eq!(app.edit_field, EditField::Name);
    app.handle_key(&special(Key::Home));
    app.handle_key(&special(Key::Delete));
    assert_eq!(app.edit_name, "ust");
    app.handle_key(&key('T'));
    assert_eq!(app.edit_name, "Tust");
    let action = app.handle_key(&special(Key::Enter));
    assert_eq!(
        action,
        Action::Save(vec![
            FileEdit::Update {
                original_url: "https://rust-lang.org/".to_string(),
                new_name: "Tust".to_string(),
                new_url: "https://rust-lang.org/".to_string(),
            },
            FileEdit::Move { url: "https://rust-lang.org/".to_string(), folder: "Bar2".to_string() },
        ])
    );
    assert!(!app.edit_mode);
    assert_eq!(app.results[0].name, "Tust");
    assert_eq!(app.results[0].folder, "Bar2");
}

#[test]
fn ctrl_s_saves_and_keeps_the_popup() {
    let mut app = sample();
    app.handle_key(&key('e'));
    app.chrome_checked(ChromeGate::Edit, false);
    app.handle_key(&special(Key::Tab));
    app.handle_key(&special(Key::End));
    app.handle_key(&key('!'));
    let first = app.handle_key(&ctrl('s'));
    assert_eq!(
        first,
        Action::Save(vec![FileEdit::Update {
            original_url: "https://rust-lang.org/".to_string(),
            new_name: "Rust!".to_string(),
            new_url: "https://rust-lang.org/".to_string(),
        }])
    );
    assert!(app.edit_mode);
    assert_eq!(app.edit_name, "Rust!");
    assert_eq!(app.results[0].name, "Rust!");
    app.handle_key(&special(Key::Tab));
    app.handle_key(&special(Key::End));
    app.handle_key(&key('x'));
    let second = app.handle_key(&ctrl('s'));
    assert_eq!(
        second,
        Action::Save(vec![FileEdit::Update {
            original_url: "https://rust-lang.org/".to_string(),
            new_name: "Rust!".to_string(),
            new_url: "https://rust-lang.org/x".to_string(),
        }])
    );
    assert_eq!(app.edit_original_url, "https://rust-lang.org/x");
    assert_eq!(app.results[0].url, "https://rust-lang.org/x");
}

#[test]
fn edit_without_folder_change_only_renames() {
    let mut app = sample();
    app.handle_key(&key('e'));
    app.chrome_checked(ChromeGate::Edit, false);
    app.handle_key(&special(Key::BackTab));
    assert_eq!(app.edit_field, EditField::Url);
    assert_eq!(app.edit_cursor, "https://rust-lang.org/".chars().count());
    app.handle_key(&key('x'));
    let action = app.handle_key(&special(Key::Enter));
    assert_eq!(
        action,
        Action::Save(vec![FileEdit::Update {
            original_url: "https://rust-lang.org/".to_string(),
            new_name: "Rust".to_string(),
            new_url: "https://rust-lang.org/x".to_string(),
        }])
    );
}

#[test]
fn edit_type_then_backspace_restores_field() {
    let mut app = sample();
    app.handle_key(&key('e'));
    app.chrome_checked(ChromeGate::Edit, false);
    app.handle_key(&special(Key::Left));
    app.handle_key(&key('한'));
    assert_eq!(app.edit_folder, "Ba한r");
    app.handle_key(&special(Key::Backspace));
    assert_eq!(app.edit_folder, "Bar");
    assert_eq!(app.edit_cursor, 2);
    app.handle_key(&special(Key::End));
    assert_eq!(app.edit_cursor, 3);
    app.handle_key(&special(Key::Right));
    assert_eq!(app.edit_cursor, 3);
    app.handle_key(&special(Key::Esc));
    assert!(!app.edit_mode);
}

#[test]
fn open_quit_and_refresh_keys() {
    let mut app = sample();
    app.handle_key(&key('j'));
    assert_eq!(app.handle_key(&key('o')), Action::OpenUrl("https://crates.io/".to_string()));
    assert_eq!(app.selected_url(), Some("https://crates.io/".to_string()));
    assert_eq!(app.handle_key(&key('r')), Action::Nothing);
    assert!(app.refresh_requested);
    assert_eq!(app.handle_key(&key('q')), Action::Quit);
}

#[test]
fn open_with_no_rows_does_nothing() {
    let mut app = app_with(vec![]);
    assert_eq!(app.handle_key(&key('o')), Action::Nothing);
}

#[test]
fn export_message_popup_closes_on_any_key() {
    let mut app = sample();
    app.set_export_result(Ok("/tmp/bookmarks.html".to_string()));
    assert_eq!(app.popup_message, Some("Bookmark file exported: /tmp/bookmarks.html".to_string()));
    assert_eq!(app.handle_key(&key('q')), Action::Nothing);
    assert_eq!(app.popup_message, None);
    app.set_export_result(Err("disk full".to_string()));
    assert_eq!(app.popup_message, Some("Export failed: disk full".to_string()));
}

#[test]
fn reset_restart_and_progress() {
    let mut app = sample();
    app.handle_key(&key('n'));
    app.handle_key(&key(' '));
    app.handle_key(&key('r'));
    assert!(!app.check_progress(4));
    app.reset();
    assert!(app.results.is_empty());
    assert_eq!(app.checked, 0);
    assert_eq!(app.invalid, 0);
    assert_eq!(app.sort_mode, SortMode::Unsorted);
    assert!(app.selected_urls.is_empty());
    assert!(!app.refresh_requested);
    app.total = 2;
    assert!(!app.check_progress(1));
    assert!(!app.checking_done);
    assert!(app.check_progress(2));
    assert!(app.checking_done);
    app.restart(7, PathBuf::from("/tmp/Other"));
    assert_eq!(app.total, 7);
    assert_eq!(app.bookmarks_path, PathBuf::from("/tmp/Other"));
    assert!(!app.checking_done);
    assert_eq!(app.selected, Some(0));
}

#[test]
fn colon_then_other_keys_act_as_usual() {
    let mut app = sample();
    app.handle_key(&key(':'));
    assert_eq!(app.handle_key(&key('j')), Action::Nothing);
    assert_eq!(app.selected, Some(1));
    assert!(!app.pending_colon);
    app.handle_key(&key(':'));
    assert_eq!(app.handle_key(&key('o')), Action::OpenUrl("https://crates.io/".to_string()));
    app.handle_key(&key(':'));
    app.handle_key(&key('d'));
    assert!(app.pending_d);
    assert_eq!(app.handle_key(&key('d')), Action::CheckChrome(ChromeGate::Delete));
    app.handle_key(&key(':'));
    assert_eq!(app.handle_key(&key('q')), Action::Quit);
}

#[test]
fn progress_after_restart_counts_the_fresh_total() {
    let mut app = sample();
    app.restart(2, PathBuf::from("/tmp/Fresh"));
    assert!(!app.check_progress(1));
    assert!(app.check_progress(2));
    app.restart(6, PathBuf::from("/tmp/Fresh"));
    assert!(!app.check_progress(4));
}
