use checkbookmark::file::{display_name_from_text, edit_file_text, export_html_text, FileText};
use checkbookmark::tui::FileEdit;

const DOC: &str = r#"{
  "checksum": "",
  "roots": {
    "bookmark_bar": {"children": [{"id": "2", "name": "Rust", "type": "url", "url": "https://www.rust-lang.org/"}],
                     "id": "1", "name": "Bookmarks bar", "type": "folder"},
    "other": {"children": [], "id": "3", "name": "Other bookmarks", "type": "folder"},
    "synced": {"children": [], "id": "4", "name": "Mobile bookmarks", "type": "folder"}
  },
  "version": 1
}"#;

fn written(r: FileText) -> serde_json::Value {
    match r {
        FileText::Write(t) => serde_json::from_str(&t).unwrap(),
        other => panic!("expected text to write, got {other:?}"),
    }
}

#[test]
fn rename_writes_document_with_fresh_checksum() {
    let edit = FileEdit::Update {
        original_url: "https://www.rust-lang.org/".to_string(),
        new_name: "Rust".to_string(),
        new_url: "https://www.rust-lang.org/".to_string(),
    };
    let v = written(edit_file_text(DOC, &edit));
    assert_eq!(v["checksum"], "3b483ef8ea0d46ea434de746042695c1");
    assert_eq!(v["version"], 1);
    let edit = FileEdit::Update {
        original_url: "https://www.rust-lang.org/".to_string(),
        new_name: "Lang".to_string(),
        new_url: "https://rust-lang.org/".to_string(),
    };
    let v = written(edit_file_text(DOC, &edit));
    assert_eq!(v["roots"]["bookmark_bar"]["children"][0]["name"], "Lang");
    assert_eq!(v["roots"]["bookmark_bar"]["children"][0]["url"], "https://rust-lang.org/");
    assert_ne!(v["checksum"], "3b483ef8ea0d46ea434de746042695c1");
}

#[test]
fn delete_and_folder_removal_always_write() {
    let v = written(edit_file_text(DOC, &FileEdit::DeleteBookmark { url: "https://www.rust-lang.org/".to_string() }));
    assert_eq!(v["roots"]["bookmark_bar"]["children"].as_array().unwrap().len(), 0);
    let v = written(edit_file_text(
        DOC,
        &FileEdit::DeleteEmptyFolder { parent: "".to_string(), name: "Nothing".to_string() },
    ));
    assert_eq!(v["checksum"], "3b483ef8ea0d46ea434de746042695c1");
}

#[test]
fn move_outcomes_as_file_text() {
    let moved = FileEdit::Move { url: "https://www.rust-lang.org/".to_string(), folder: "other".to_string() };
    let v = written(edit_file_text(DOC, &moved));
    assert_eq!(v["roots"]["other"]["children"][0]["name"], "Rust");
    let missing = FileEdit::Move { url: "https://none/".to_string(), folder: "other".to_string() };
    assert_eq!(edit_file_text(DOC, &missing), FileText::Keep);
    let no_folder = FileEdit::Move { url: "https://www.rust-lang.org/".to_string(), folder: "/".to_string() };
    assert_eq!(edit_file_text(DOC, &no_folder), FileText::Keep);
    let no_bar = r#"{"roots": {"other": {"children": [{"type": "url", "url": "u", "name": "n"}], "name": "O", "type": "folder"}}}"#;
    let abandoned = FileEdit::Move { url: "u".to_string(), folder: "Nowhere".to_string() };
    assert_eq!(edit_file_text(no_bar, &abandoned), FileText::Abandoned);
}

#[test]
fn invalid_text_is_refused() {
    let edit = FileEdit::DeleteBookmark { url: "x".to_string() };
    assert_eq!(edit_file_text("{not json", &edit), FileText::Invalid);
    assert_eq!(export_html_text("{not json"), None);
}

#[test]
fn html_export_from_text() {
    let html = export_html_text(DOC).unwrap();
    assert!(html.contains("        <DT><A HREF=\"https://www.rust-lang.org/\">Rust</A>\n"));
}

#[test]
fn profile_names_from_preferences_text() {
    assert_eq!(display_name_from_text(Some(r#"{"profile": {"name": "Work"}}"#), "Profile 1"), "Work");
    assert_eq!(display_name_from_text(Some("garbage"), "Profile 1"), "Profile 1");
    assert_eq!(display_name_from_text(None, "Default"), "Default");
}
