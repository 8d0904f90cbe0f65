use checkbookmark::checksum::{compute_checksum, stamp_checksum};
use checkbookmark::json::{get, get_str, set_member, take_member, JsonValue};
use checkbookmark::tree::{delete_bookmark, delete_empty_folder, move_bookmark, rename_bookmark, MoveOutcome};

fn s(x: &str) -> JsonValue {
    JsonValue::Str(x.to_string())
}

fn obj(members: Vec<(&str, JsonValue)>) -> JsonValue {
    JsonValue::Object(members.into_iter().map(|(k, v)| (k.to_string(), v)).collect())
}

fn bookmark(id: &str, name: &str, url: &str) -> JsonValue {
    obj(vec![("id", s(id)), ("name", s(name)), ("type", s("url")), ("url", s(url))])
}

fn folder(id: &str, name: &str, children: Vec<JsonValue>) -> JsonValue {
    obj(vec![
        ("children", JsonValue::Array(children)),
        ("id", s(id)),
        ("name", s(name)),
        ("type", s("folder")),
    ])
}

fn document(bar: Vec<JsonValue>, other: Vec<JsonValue>) -> JsonValue {
    obj(vec![
        ("checksum", s("")),
        (
            "roots",
            obj(vec![
                ("bookmark_bar", folder("1", "Bookmarks bar", bar)),
                ("other", folder("3", "Other bookmarks", other)),
                ("synced", folder("4", "Mobile bookmarks", vec![])),
            ]),
        ),
        ("version", JsonValue::Number("1".to_string())),
    ])
}

fn root<'a>(doc: &'a JsonValue, key: &str) -> &'a JsonValue {
    get(get(doc, "roots").unwrap(), key).unwrap()
}

fn children(v: &JsonValue) -> &Vec<JsonValue> {
    match get(v, "children") {
        Some(JsonValue::Array(items)) => items,
        _ => panic!("no children"),
    }
}

#[test]
fn rename_updates_first_matching_bookmark() {
    let mut doc = document(
        vec![bookmark("2", "Old", "https://a.example/"), bookmark("5", "Twin", "https://a.example/")],
        vec![],
    );
    let found = rename_bookmark(&mut doc, "https://a.example/", "New", "https://b.example/");
    assert!(found);
    let bar = children(root(&doc, "bookmark_bar"));
    assert_eq!(get_str(&bar[0], "name"), Some("New"));
    assert_eq!(get_str(&bar[0], "url"), Some("https://b.example/"));
    assert_eq!(get_str(&bar[1], "name"), Some("Twin"));
    assert_eq!(get_str(&bar[1], "url"), Some("https://a.example/"));
}

#[test]
fn rename_searches_nested_folders_and_later_roots() {
    let mut doc = document(
        vec![folder("6", "Dev", vec![bookmark("7", "Docs", "https://docs.example/")])],
        vec![bookmark("8", "Mail", "https://mail.example/")],
    );
    assert!(rename_bookmark(&mut doc, "https://mail.example/", "Post", "https://post.example/"));
    let other = children(root(&doc, "other"));
    assert_eq!(get_str(&other[0], "name"), Some("Post"));
    assert!(rename_bookmark(&mut doc, "https://docs.example/", "Manual", "https://docs.example/v2"));
    let dev = &children(root(&doc, "bookmark_bar"))[0];
    assert_eq!(get_str(&children(dev)[0], "url"), Some("https://docs.example/v2"));
}

#[test]
fn rename_without_match_changes_nothing() {
    let mut doc = document(vec![bookmark("2", "A", "https://a.example/")], vec![]);
    let before = document(vec![bookmark("2", "A", "https://a.example/")], vec![]);
    assert!(!rename_bookmark(&mut doc, "https://missing.example/", "X", "https://x.example/"));
    assert_eq!(doc, before);
}

#[test]
fn rename_then_find_new_url() {
    let mut doc = document(vec![bookmark("2", "A", "https://a.example/")], vec![]);
    assert!(rename_bookmark(&mut doc, "https://a.example/", "B", "https://b.example/"));
    // The renamed bookmark is found again under its new URL.
    assert!(rename_bookmark(&mut doc, "https://b.example/", "B", "https://b.example/"));
    assert!(!rename_bookmark(&mut doc, "https://a.example/", "A", "https://a.example/"));
}

#[test]
fn delete_removes_all_matches_in_first_folder_holding_one() {
    let mut doc = document(
        vec![
            bookmark("2", "A", "https://a.example/"),
            bookmark("3", "B", "https://b.example/"),
            bookmark("4", "A again", "https://a.example/"),
            folder("5", "Sub", vec![bookmark("6", "A deep", "https://a.example/")]),
        ],
        vec![],
    );
    assert!(delete_bookmark(&mut doc, "https://a.example/"));
    let bar = children(root(&doc, "bookmark_bar"));
    assert_eq!(bar.len(), 2);
    assert_eq!(get_str(&bar[0], "url"), Some("https://b.example/"));
    // The nested copy is in another folder and stays.
    assert_eq!(children(&bar[1]).len(), 1);
}

#[test]
fn delete_without_match_changes_nothing() {
    let mut doc = document(vec![bookmark("2", "A", "https://a.example/")], vec![]);
    let before = document(vec![bookmark("2", "A", "https://a.example/")], vec![]);
    assert!(!delete_bookmark(&mut doc, "https://zzz.example/"));
    assert_eq!(doc, before);
}

#[test]
fn delete_empty_folder_by_path() {
    let mut doc = document(
        vec![folder("5", "Sub", vec![folder("9", "Empty", vec![]), folder("10", "Full", vec![bookmark("11", "x", "https://x/")])])],
        vec![],
    );
    assert!(!delete_empty_folder(&mut doc, "Bookmarks bar/Sub", "Full"));
    assert!(delete_empty_folder(&mut doc, "Bookmarks bar/Sub", "Empty"));
    let sub = &children(root(&doc, "bookmark_bar"))[0];
    assert_eq!(children(sub).len(), 1);
    assert_eq!(get_str(&children(sub)[0], "name"), Some("Full"));
}

#[test]
fn delete_empty_folder_at_top_of_a_root() {
    let mut doc = document(vec![], vec![folder("9", "Empty", vec![])]);
    assert!(delete_empty_folder(&mut doc, "", "Empty"));
    assert_eq!(children(root(&doc, "other")).len(), 0);
}

#[test]
fn move_into_existing_and_new_folders() {
    let mut doc = document(
        vec![bookmark("2", "A", "https://a.example/"), folder("5", "Sub", vec![])],
        vec![],
    );
    let r = move_bookmark(&mut doc, "https://a.example/", "Bookmarks bar/Sub/New");
    assert_eq!(r, MoveOutcome::Moved);
    let bar = children(root(&doc, "bookmark_bar"));
    assert_eq!(bar.len(), 1);
    let sub = &bar[0];
    let created = &children(sub)[0];
    assert_eq!(get_str(created, "name"), Some("New"));
    assert_eq!(get_str(created, "type"), Some("folder"));
    assert_eq!(get_str(&children(created)[0], "url"), Some("https://a.example/"));
}

#[test]
fn move_by_root_key_and_default_root() {
    let mut doc = document(vec![bookmark("2", "A", "https://a.example/")], vec![]);
    assert_eq!(move_bookmark(&mut doc, "https://a.example/", "other"), MoveOutcome::Moved);
    assert_eq!(get_str(&children(root(&doc, "other"))[0], "url"), Some("https://a.example/"));
    // A first part that names no root puts the path under the bookmark bar.
    assert_eq!(move_bookmark(&mut doc, "https://a.example/", "Elsewhere"), MoveOutcome::Moved);
    let bar = children(root(&doc, "bookmark_bar"));
    assert_eq!(get_str(&bar[0], "name"), Some("Elsewhere"));
}

#[test]
fn move_outcomes_without_a_target() {
    let mut doc = document(vec![bookmark("2", "A", "https://a.example/")], vec![]);
    let before = document(vec![bookmark("2", "A", "https://a.example/")], vec![]);
    assert_eq!(move_bookmark(&mut doc, "https://none.example/", "other"), MoveOutcome::NotFound);
    assert_eq!(doc, before);
    assert_eq!(move_bookmark(&mut doc, "https://a.example/", "///"), MoveOutcome::NoFolder);
    assert_eq!(children(root(&doc, "bookmark_bar")).len(), 0);
}

#[test]
fn checksum_matches_chrome_digest() {
    let doc = document(vec![bookmark("2", "Rust", "https://www.rust-lang.org/")], vec![]);
    let roots = get(&doc, "roots").unwrap();
    assert_eq!(compute_checksum(roots), "3b483ef8ea0d46ea434de746042695c1");
}

#[test]
fn checksum_of_empty_roots_is_md5_of_nothing() {
    let roots = obj(vec![]);
    assert_eq!(compute_checksum(&roots), "d41d8cd98f00b204e9800998ecf8427e");
}

#[test]
fn stamp_reads_back_and_is_idempotent() {
    let mut doc = document(vec![bookmark("2", "Rust", "https://www.rust-lang.org/")], vec![]);
    stamp_checksum(&mut doc);
    assert_eq!(get_str(&doc, "checksum"), Some("3b483ef8ea0d46ea434de746042695c1"));
    let once = document(vec![bookmark("2", "Rust", "https://www.rust-lang.org/")], vec![]);
    let mut once = once;
    stamp_checksum(&mut once);
    stamp_checksum(&mut doc);
    assert_eq!(doc, once);
}

#[test]
fn stamp_without_roots_changes_nothing() {
    let mut doc = obj(vec![("version", JsonValue::Number("1".to_string()))]);
    stamp_checksum(&mut doc);
    assert_eq!(doc, obj(vec![("version", JsonValue::Number("1".to_string()))]));
}

#[test]
fn json_set_then_get_and_take() {
    let mut v = obj(vec![("a", s("1"))]);
    set_member(&mut v, "b", s("2"));
    set_member(&mut v, "a", s("3"));
    assert_eq!(get_str(&v, "a"), Some("3"));
    assert_eq!(get_str(&v, "b"), Some("2"));
    let taken = take_member(&mut v, "a");
    assert_eq!(taken, Some(s("3")));
    assert_eq!(get(&v, "a"), Some(&JsonValue::Null));
    assert_eq!(take_member(&mut v, "zzz"), None);
}

#[test]
fn moved_bookmark_is_found_again() {
    let mut doc = document(vec![bookmark("2", "A", "https://a.example/")], vec![folder("5", "Keep", vec![])]);
    assert_eq!(move_bookmark(&mut doc, "https://a.example/", "Other bookmarks/Keep"), MoveOutcome::Moved);
    // Renaming finds the bookmark at its new place.
    assert!(rename_bookmark(&mut doc, "https://a.example/", "A", "https://a.example/"));
    let keep = &children(root(&doc, "other"))[0];
    assert_eq!(get_str(&children(keep)[0], "url"), Some("https://a.example/"));
}

#[test]
fn move_into_folder_without_children_drops_the_bookmark() {
    let odd = obj(vec![("name", s("Odd")), ("type", s("folder"))]);
    let mut doc = document(vec![bookmark("2", "A", "https://a.example/"), odd], vec![]);
    assert_eq!(move_bookmark(&mut doc, "https://a.example/", "Bookmarks bar/Odd"), MoveOutcome::Moved);
    assert!(!rename_bookmark(&mut doc, "https://a.example/", "A", "https://a.example/"));
}

#[test]
fn deleting_adds_no_bookmark() {
    let mut doc = document(
        vec![bookmark("2", "A", "https://a.example/"), bookmark("3", "B", "https://b.example/")],
        vec![],
    );
    assert!(delete_bookmark(&mut doc, "https://a.example/"));
    assert!(!rename_bookmark(&mut doc, "https://c.example/", "C", "https://c.example/"));
    assert!(rename_bookmark(&mut doc, "https://b.example/", "B", "https://b.example/"));
    assert!(!rename_bookmark(&mut doc, "https://a.example/", "A", "https://a.example/"));
}

#[test]
fn hex_string_writes_lowercase_pairs() {
    assert_eq!(checkbookmark::checksum::hex_string(&vec![0x00, 0x0f, 0xa0, 0xff]), "000fa0ff");
    assert_eq!(checkbookmark::checksum::hex_string(&vec![]), "");
}

#[test]
fn html_export_lists_folders_and_links() {
    let doc = document(
        vec![bookmark("2", "R&D <new>", "https://a.example/?x=1&y=\"2\""), folder("5", "Sub", vec![])],
        vec![],
    );
    let html = checkbookmark::html::bookmarks_html(&doc);
    let expected = [
        "<!DOCTYPE NETSCAPE-Bookmark-file-1>\n",
        "<META HTTP-EQUIV=\"Content-Type\" CONTENT=\"text/html; charset=UTF-8\">\n",
        "<TITLE>Bookmarks</TITLE>\n",
        "<H1>Bookmarks</H1>\n",
        "<DL><p>\n",
        "    <DT><H3>Bookmarks bar</H3>\n",
        "    <DL><p>\n",
        "        <DT><A HREF=\"https://a.example/?x=1&amp;y=&quot;2&quot;\">R&amp;D &lt;new&gt;</A>\n",
        "        <DT><H3>Sub</H3>\n",
        "        <DL><p>\n",
        "        </DL><p>\n",
        "    </DL><p>\n",
        "    <DT><H3>Other bookmarks</H3>\n",
        "    <DL><p>\n",
        "    </DL><p>\n",
        "    <DT><H3>Mobile bookmarks</H3>\n",
        "    <DL><p>\n",
        "    </DL><p>\n",
        "</DL><p>\n",
    ]
    .concat();
    assert_eq!(html, expected);
}

#[test]
fn html_export_without_roots_is_an_empty_list() {
    let html = checkbookmark::html::bookmarks_html(&obj(vec![]));
    assert!(html.ends_with("<H1>Bookmarks</H1>\n<DL><p>\n</DL><p>\n"));
}

#[test]
fn rename_there_and_back_restores_document() {
    let original = document(
        vec![folder("5", "Sub", vec![bookmark("2", "A", "https://a.example/")])],
        vec![bookmark("3", "C", "https://c.example/")],
    );
    let mut doc = document(
        vec![folder("5", "Sub", vec![bookmark("2", "A", "https://a.example/")])],
        vec![bookmark("3", "C", "https://c.example/")],
    );
    assert!(rename_bookmark(&mut doc, "https://a.example/", "B", "https://b.example/"));
    assert_ne!(doc, original);
    assert!(rename_bookmark(&mut doc, "https://b.example/", "A", "https://a.example/"));
    assert_eq!(doc, original);
}
