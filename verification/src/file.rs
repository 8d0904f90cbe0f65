//! The bookmarks file as text: each edit takes the text read from the file and
//! gives the text to write back, with a fresh checksum.
use vstd::prelude::*;

use crate::checksum::{stamp_checksum, stamped};
use crate::html::{bookmarks_html, document_html};
use crate::json::{parse_json, parsed_json, pretty_json, to_pretty_json, Json, JsonValue};
use crate::profiles::{display_name_of, profile_display_name};
use crate::tree::{
    delete_bookmark, delete_empty_folder, deleted_document, empty_folder_deleted, move_bookmark, moved_document,
    rename_bookmark, renamed_document, MoveOutcome,
};
use crate::tui::{EditView, FileEdit};

verus! {

/// What to do with the bookmarks file after an edit.
#[derive(Debug, PartialEq, Eq)]
pub enum FileText {
    /// The text is not JSON, or the edited document could not be written out.
    Invalid,
    /// The edit found nothing to move; the file stays as it is.
    Keep,
    /// The move was abandoned: the target root is missing, or a folder on the
    /// path has no children array.
    Abandoned,
    /// The text to write to the file.
    Write(String),
}

/// Mathematical model of a [`FileText`].
pub enum FileTextView {
    Invalid,
    Keep,
    Abandoned,
    Write(Seq<char>),
}

impl View for FileText {
    type V = FileTextView;

    open spec fn view(&self) -> FileTextView {
        match self {
            FileText::Invalid => FileTextView::Invalid,
            FileText::Keep => FileTextView::Keep,
            FileText::Abandoned => FileTextView::Abandoned,
            FileText::Write(t) => FileTextView::Write(t@),
        }
    }
}

/// The text a document is saved as: with its checksum stamped, written out
/// indented.
pub open spec fn saved_text(doc: Json) -> FileTextView {
    match pretty_json(stamped(doc)) {
        Some(t) => FileTextView::Write(t),
        None => FileTextView::Invalid,
    }
}

/// What an edit makes of the file text: a rename, a deletion and an empty-folder
/// removal always save; a move saves only when the bookmark was moved.
pub open spec fn edited_file(text: Seq<char>, e: EditView) -> FileTextView {
    match parsed_json(text) {
        None => FileTextView::Invalid,
        Some(doc) => match e {
            EditView::Update(url, name, new_url) => saved_text(renamed_document(doc, url, name, new_url)),
            EditView::DeleteBookmark(url) => saved_text(deleted_document(doc, url)),
            EditView::DeleteEmptyFolder(parent, name) => saved_text(empty_folder_deleted(doc, parent, name)),
            EditView::Move(url, folder) => {
                let (o, d) = moved_document(doc, url, folder);
                match o {
                    MoveOutcome::Moved => saved_text(d),
                    MoveOutcome::NotFound => FileTextView::Keep,
                    MoveOutcome::NoFolder => FileTextView::Keep,
                    _ => FileTextView::Abandoned,
                }
            },
        },
    }
}

/// The text to save a document as (see [`saved_text`]).
fn save_text(doc: JsonValue) -> (r: FileText)
    ensures
        r@ == saved_text(doc@),
{
    let mut doc = doc;
    stamp_checksum(&mut doc);
    match to_pretty_json(&doc) {
        Some(t) => FileText::Write(t),
        None => FileText::Invalid,
    }
}

/// Applies one edit to the text of a bookmarks file (see [`edited_file`]).
pub fn edit_file_text(content: &str, edit: &FileEdit) -> (r: FileText)
    ensures
        r@ == edited_file(content@, edit@),
{
    let mut doc = match parse_json(content) {
        Some(d) => d,
        None => return FileText::Invalid,
    };
    match edit {
        FileEdit::Update { original_url, new_name, new_url } => {
            rename_bookmark(&mut doc, original_url.as_str(), new_name.as_str(), new_url.as_str());
            save_text(doc)
        },
        FileEdit::DeleteBookmark { url } => {
            delete_bookmark(&mut doc, url.as_str());
            save_text(doc)
        },
        FileEdit::DeleteEmptyFolder { parent, name } => {
            delete_empty_folder(&mut doc, parent.as_str(), name.as_str());
            save_text(doc)
        },
        FileEdit::Move { url, folder } => match move_bookmark(&mut doc, url.as_str(), folder.as_str()) {
            MoveOutcome::Moved => save_text(doc),
            MoveOutcome::NotFound => FileText::Keep,
            MoveOutcome::NoFolder => FileText::Keep,
            _ => FileText::Abandoned,
        },
    }
}

/// The Netscape bookmark file for the text of a bookmarks file, `None` when the
/// text is not JSON.
pub fn export_html_text(content: &str) -> (r: Option<String>)
    ensures
        match parsed_json(content@) {
            Some(doc) => r matches Some(t) && t@ == document_html(doc),
            None => r is None,
        },
{
    match parse_json(content) {
        Some(doc) => Some(bookmarks_html(&doc)),
        None => None,
    }
}

/// The name a profile shows, from the text of its `Preferences` file when it
/// could be read (see [`display_name_of`]).
pub fn display_name_from_text(prefs: Option<&str>, dir_name: &str) -> (r: String)
    ensures
        r@ == display_name_of(
            match prefs {
                Some(t) => parsed_json(t@),
                None => None,
            },
            dir_name@,
        ),
{
    match prefs {
        Some(t) => match parse_json(t) {
            Some(v) => profile_display_name(Some(&v), dir_name),
            None => profile_display_name(None, dir_name),
        },
        None => profile_display_name(None, dir_name),
    }
}

} // verus!
