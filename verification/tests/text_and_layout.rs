use std::path::PathBuf;

use checkbookmark::check::{
    count_invalid, filter_results, folder_result, is_valid_status, short_error, status_of, url_result,
    RequestOutcome,
};
use checkbookmark::display::{
    centered_rect, cursor_offset, fit_widths, header_labels, help_line, pad_width, pad_with, row_kind, row_number,
    search_line, shown_url, styled_hint, truncate, truncate_checked, RowKind,
};
use checkbookmark::entries::{BookmarkEntry, BookmarkNode, Bookmarks, CheckResult};
use checkbookmark::json::JsonValue;
use checkbookmark::order::{stable_order, SortKey};
use checkbookmark::profiles::{
    find_profile, picker_step, profile_choice, profile_display_name, sort_profiles, PickerStep, ProfileInfo,
};
use checkbookmark::text::{compare_str, format_decimal, split_path};
use checkbookmark::tui::{Key, KeyInput, SortMode};

fn entry(folder: &str, name: &str, url: &str, empty: bool) -> BookmarkEntry {
    BookmarkEntry { folder: folder.to_string(), name: name.to_string(), url: url.to_string(), is_empty_folder: empty }
}

fn node(name: &str, node_type: &str, url: Option<&str>, children: Option<Vec<BookmarkNode>>) -> BookmarkNode {
    BookmarkNode {
        name: name.to_string(),
        node_type: node_type.to_string(),
        url: url.map(|u| u.to_string()),
        children,
    }
}

fn profile(dir: &str, display: &str) -> ProfileInfo {
    ProfileInfo { dir_name: dir.to_string(), display_name: display.to_string(), bookmarks_path: PathBuf::from(dir) }
}

#[test]
fn truncate_cuts_by_display_width() {
    assert_eq!(truncate("short", 10), "short");
    assert_eq!(truncate("hello world", 8), "hello...");
    assert_eq!(truncate("한국어텍스트", 7), "한국...");
    assert_eq!(truncate("exactly", 7), "exactly");
}

#[test]
fn pad_width_fills_to_display_width() {
    assert_eq!(pad_width("ab", 5), "ab   ");
    assert_eq!(pad_width("한", 4), "한  ");
    assert_eq!(pad_width("abcdef", 3), "abcdef");
    assert_eq!(pad_width("", 2), "  ");
}

#[test]
fn cursor_offset_counts_columns_before_cursor() {
    assert_eq!(cursor_offset("a한b", 2), 3);
    assert_eq!(cursor_offset("a한b", 0), 0);
    assert_eq!(cursor_offset("a한b", 10), 4);
}

#[test]
fn styled_hint_splits_keys_from_text() {
    assert_eq!(
        styled_hint(" [q] Quit"),
        vec![(" ".to_string(), false), ("[q]".to_string(), true), (" Quit".to_string(), false)]
    );
    assert_eq!(styled_hint("[a][b]"), vec![("[a]".to_string(), true), ("[b]".to_string(), true)]);
    assert_eq!(styled_hint(""), Vec::<(String, bool)>::new());
    assert_eq!(styled_hint("plain"), vec![("plain".to_string(), false)]);
}

#[test]
fn styled_hint_with_unclosed_bracket_ends_in_a_plain_piece() {
    assert_eq!(
        styled_hint("ab[cd"),
        vec![("ab".to_string(), false), ("[cd".to_string(), false)]
    );
    assert_eq!(
        styled_hint("[k] x [y"),
        vec![("[k]".to_string(), true), (" x ".to_string(), false), ("[y".to_string(), false)]
    );
}

#[test]
fn styled_hint_pieces_join_back() {
    let text = " [↑/↓/j/k] Navigate  [Enter] Select  [q] Quit";
    let joined: String = styled_hint(text).into_iter().map(|(s, _)| s).collect();
    assert_eq!(joined, text);
}

#[test]
fn centered_rect_places_popup() {
    assert_eq!(centered_rect(60, 12, 100, 40), (20, 14, 60, 12));
    assert_eq!(centered_rect(50, 6, 10, 4), (2, 0, 5, 6));
}

#[test]
fn header_labels_mark_sort_column() {
    assert_eq!(header_labels(SortMode::Name, true), vec!["#", "STATUS", "FOLDER", "NAME ▲", "URL"]);
    assert_eq!(header_labels(SortMode::Status, false), vec!["#", "STATUS ▼", "FOLDER", "NAME", "URL"]);
    assert_eq!(header_labels(SortMode::Unsorted, true), vec!["#", "STATUS", "FOLDER", "NAME", "URL"]);
}

#[test]
fn row_labels() {
    assert_eq!(row_number(0, false), "1");
    assert_eq!(row_number(9, true), " ✓10");
    assert_eq!(shown_url("folder://Bar/Empty"), "(empty folder)");
    assert_eq!(shown_url("https://x/"), "https://x/");
    let r = CheckResult {
        folder: "Bar".to_string(),
        name: "E".to_string(),
        url: "folder://Bar/E".to_string(),
        status: "EMPTY_FOLDER".to_string(),
        is_valid: false,
    };
    assert_eq!(row_kind(&r), RowKind::EmptyFolder);
    let ok = CheckResult { url: "https://x/".to_string(), is_valid: true, ..r.clone() };
    assert_eq!(row_kind(&ok), RowKind::Valid);
    let bad = CheckResult { is_valid: false, ..ok.clone() };
    assert_eq!(row_kind(&bad), RowKind::Invalid);
}

#[test]
fn search_and_help_lines() {
    assert_eq!(search_line("", 3), " /");
    assert_eq!(search_line("ab", 2), " /ab  (2 matches)");
    let base = " [↑/↓/j/k] Navigate  [Space] Select  [V] Select All  [dd] Delete  [s/f/n/u] Sort  [o] Open  [e] Edit  [/] Filter  [r] Refresh  [q] Quit";
    assert_eq!(help_line(0, "", 0), base);
    assert_eq!(help_line(2, "rs", 5), format!("{base}  [Selected: 2]  [Filter: \"rs\" 5 matches]"));
}

#[test]
fn status_of_each_outcome() {
    assert_eq!(
        status_of(RequestOutcome::Response { code: 200, text: "200 OK".to_string() }),
        (200, "200 OK".to_string())
    );
    assert_eq!(status_of(RequestOutcome::Timeout), (0, "TIMEOUT".to_string()));
    assert_eq!(status_of(RequestOutcome::Connect), (0, "CONN_ERR".to_string()));
    assert_eq!(
        status_of(RequestOutcome::Failed("error sending request for url".to_string())),
        (0, "error sending reques...".to_string())
    );
    assert_eq!(status_of(RequestOutcome::Failed("boom".to_string())), (0, "boom".to_string()));
}

#[test]
fn short_error_keeps_twenty_bytes() {
    assert_eq!(short_error("12345678901234567890"), "12345678901234567890");
    assert_eq!(short_error("123456789012345678901"), "12345678901234567890...");
    assert_eq!(short_error("가나다라마바abcd"), "가나다라마바ab...");
}

#[test]
fn valid_status_range() {
    assert!(!is_valid_status(0));
    assert!(!is_valid_status(199));
    assert!(is_valid_status(200));
    assert!(is_valid_status(301));
    assert!(is_valid_status(399));
    assert!(!is_valid_status(400));
    assert!(!is_valid_status(503));
}

#[test]
fn results_for_bookmarks_and_empty_folders() {
    let r = url_result(entry("Bar", "A", "https://a/", false), 404, "404 Not Found".to_string());
    assert_eq!(r.status, "404 Not Found");
    assert!(!r.is_valid);
    assert_eq!(r.folder, "Bar");
    let ok = url_result(entry("Bar", "A", "https://a/", false), 204, "204 No Content".to_string());
    assert!(ok.is_valid);
    let f = folder_result(entry("Bar", "E", "folder://Bar/E", true));
    assert_eq!(f.status, "EMPTY_FOLDER");
    assert!(!f.is_valid);
    assert_eq!(f.url, "folder://Bar/E");
}

#[test]
fn counting_and_filtering_invalid_results() {
    let results = vec![
        url_result(entry("", "a", "https://a/", false), 200, "200 OK".to_string()),
        url_result(entry("", "b", "https://b/", false), 500, "500".to_string()),
        folder_result(entry("", "c", "folder://c", true)),
    ];
    assert_eq!(count_invalid(&results), 2);
    let shown: Vec<&str> = filter_results(&results, true).iter().map(|r| r.name.as_str()).collect();
    assert_eq!(shown, vec!["b", "c"]);
    assert_eq!(filter_results(&results, false).len(), 3);
}

#[test]
fn entries_list_bookmarks_and_empty_folders() {
    let bar = node(
        "Bookmarks bar",
        "folder",
        None,
        Some(vec![
            node("A", "url", Some("https://a/"), None),
            node("Sub", "folder", None, Some(vec![])),
            node("F", "folder", None, Some(vec![node("B", "url", Some("https://b/"), None)])),
        ]),
    );
    let other = node("Other bookmarks", "folder", None, Some(vec![]));
    let synced = node("Mobile bookmarks", "folder", None, None);
    let file = Bookmarks::new(bar, other, synced);
    let entries = file.entries();
    assert_eq!(
        entries,
        vec![
            entry("Bookmarks bar", "A", "https://a/", false),
            entry("Bookmarks bar", "Sub", "folder://Bookmarks bar/Sub", true),
            entry("Bookmarks bar/F", "B", "https://b/", false),
            entry("", "Other bookmarks", "folder://Other bookmarks", true),
        ]
    );
    let urls: Vec<(String, String)> = file.urls().into_iter().map(|u| (u.name, u.url)).collect();
    assert_eq!(urls, vec![("A".to_string(), "https://a/".to_string()), ("B".to_string(), "https://b/".to_string())]);
    let from_entries: Vec<(String, String)> =
        entries.into_iter().filter(|e| !e.is_empty_folder).map(|e| (e.name, e.url)).collect();
    assert_eq!(from_entries, urls);
}

#[test]
fn url_node_without_url_is_skipped() {
    let bar = node("Bar", "folder", None, Some(vec![node("broken", "url", None, None)]));
    let file = Bookmarks::new(bar, node("O", "folder", None, None), node("S", "folder", None, None));
    assert!(file.entries().is_empty());
}

#[test]
fn profile_names_from_preferences() {
    let prefs = JsonValue::Object(vec![(
        "profile".to_string(),
        JsonValue::Object(vec![("name".to_string(), JsonValue::Str("Work".to_string()))]),
    )]);
    assert_eq!(profile_display_name(Some(&prefs), "Profile 1"), "Work");
    assert_eq!(profile_display_name(None, "Profile 1"), "Profile 1");
    let odd = JsonValue::Object(vec![(
        "profile".to_string(),
        JsonValue::Object(vec![("name".to_string(), JsonValue::Number("3".to_string()))]),
    )]);
    assert_eq!(profile_display_name(Some(&odd), "Default"), "Default");
}

#[test]
fn profiles_sort_by_directory_and_are_found_by_either_name() {
    let sorted = sort_profiles(vec![profile("Profile 2", "Home"), profile("Default", "Me"), profile("Profile 1", "Work")]);
    let dirs: Vec<&str> = sorted.iter().map(|p| p.dir_name.as_str()).collect();
    assert_eq!(dirs, vec!["Default", "Profile 1", "Profile 2"]);
    assert_eq!(sorted[2].bookmarks_path, PathBuf::from("Profile 2"));
    assert_eq!(find_profile(&sorted, "Work"), Some(1));
    assert_eq!(find_profile(&sorted, "Default"), Some(0));
    assert_eq!(find_profile(&sorted, "Nobody"), None);
}

#[test]
fn profile_choice_parses_typed_number() {
    assert_eq!(profile_choice("", 3), Some(0));
    assert_eq!(profile_choice("   \n", 3), Some(0));
    assert_eq!(profile_choice("  2 \n", 3), Some(1));
    assert_eq!(profile_choice("+3", 3), Some(2));
    assert_eq!(profile_choice("003", 3), Some(2));
    assert_eq!(profile_choice("4", 3), None);
    assert_eq!(profile_choice("0", 3), None);
    assert_eq!(profile_choice("-1", 3), None);
    assert_eq!(profile_choice("+", 3), None);
    assert_eq!(profile_choice("1a", 3), None);
    assert_eq!(profile_choice("99999999999999999999999", 3), None);
    assert_eq!(profile_choice("\u{3000}1\u{3000}", 3), Some(0));
}

#[test]
fn picker_keys() {
    let k = |code| KeyInput { code, ctrl: false };
    assert_eq!(picker_step(0, 3, &k(Key::Down)), PickerStep::Highlight(1));
    assert_eq!(picker_step(2, 3, &k(Key::Char('j'))), PickerStep::Highlight(2));
    assert_eq!(picker_step(0, 3, &k(Key::Up)), PickerStep::Highlight(0));
    assert_eq!(picker_step(2, 3, &k(Key::Char('k'))), PickerStep::Highlight(1));
    assert_eq!(picker_step(1, 3, &k(Key::Enter)), PickerStep::Picked(1));
    assert_eq!(picker_step(1, 3, &k(Key::Char('q'))), PickerStep::Quit);
    assert_eq!(picker_step(1, 3, &k(Key::Esc)), PickerStep::Highlight(1));
}

#[test]
fn stable_order_sorts_by_rank_then_text() {
    let keys = vec![
        SortKey { rank: 1, text: "b".to_string() },
        SortKey { rank: 0, text: "z".to_string() },
        SortKey { rank: 1, text: "a".to_string() },
        SortKey { rank: 1, text: "b".to_string() },
    ];
    assert_eq!(stable_order(&keys, true), vec![1, 2, 0, 3]);
    assert_eq!(stable_order(&keys, false), vec![0, 3, 2, 1]);
}

#[test]
fn small_text_helpers() {
    assert_eq!(compare_str("abc", "abd"), -1);
    assert_eq!(compare_str("abc", "abc"), 0);
    assert_eq!(compare_str("b", "abc"), 1);
    assert_eq!(compare_str("ab", "abc"), -1);
    assert_eq!(format_decimal(0), "0");
    assert_eq!(format_decimal(1234567), "1234567");
    assert_eq!(split_path("/Bookmarks bar//sub/"), vec!["Bookmarks bar", "sub"]);
    assert!(split_path("").is_empty());
}

#[test]
fn fit_widths_takes_while_within_limit() {
    assert_eq!(fit_widths(&vec![Some(2), Some(2), Some(2)], 5), 2);
    assert_eq!(fit_widths(&vec![Some(1), None, Some(1)], 2), 3);
    assert_eq!(fit_widths(&vec![Some(3)], 2), 0);
    assert_eq!(fit_widths(&vec![], 0), 0);
}

#[test]
fn pad_with_uses_given_columns() {
    assert_eq!(pad_with("ab", 2, 4), "ab  ");
    assert_eq!(pad_with("ab", 5, 4), "ab");
}

#[test]
fn truncate_checked_refuses_too_narrow_limits() {
    assert_eq!(truncate_checked("hello", 2), None);
    assert_eq!(truncate_checked("hi", 2), Some("hi".to_string()));
    assert_eq!(truncate_checked("hello world", 8), Some("hello...".to_string()));
}
