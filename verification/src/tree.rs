//! Edits of a Chrome bookmarks document: renaming, deleting and moving entries.
//!
//! A document is the parsed `Bookmarks` JSON file. Its `"roots"` object holds the
//! three root folders `bookmark_bar`, `other` and `synced`; every folder holds its
//! entries in a `"children"` array, and a bookmark is an object whose `"type"` is
//! `"url"`.
use vstd::prelude::*;

use crate::json::{
    any, children_of, key_is, field_str, first, is_first, items_model, lemma_array_model, lemma_children_decrease,
    lemma_first_exists, lemma_first_unique, lemma_get_object, lemma_set_other, lemma_set_same, lemma_set_then_get,
    lemma_set_twice,
    obj_get, obj_set, set_member, take_member, with_children, Json, JsonValue,
};
use crate::text::{owned, path_parts, strings_model};

verus! {

// ---------------------------------------------------------------------------
// Roots

/// The keys of the three root folders, in the order they are searched.
pub open spec fn root_keys() -> Seq<Seq<char>> {
    seq!["bookmark_bar"@, "other"@, "synced"@]
}

/// The key of the `i`-th root folder.
pub fn root_key(i: usize) -> (r: &'static str)
    requires
        i < 3,
    ensures
        r@ == root_keys()[i as int],
{
    if i == 0 {
        "bookmark_bar"
    } else if i == 1 {
        "other"
    } else {
        "synced"
    }
}

/// The node is a bookmark (`"type": "url"`) for `url`.
pub open spec fn is_url_node(v: Json, url: Seq<char>) -> bool {
    field_str(v, "type"@) == Some("url"@) && field_str(v, "url"@) == Some(url)
}

/// Predicate form of [`is_url_node`].
pub open spec fn url_node_pred(url: Seq<char>) -> spec_fn(Json) -> bool {
    |c: Json| is_url_node(c, url)
}

// ---------------------------------------------------------------------------
// Renaming a bookmark

/// The search that renames a bookmark reaches a bookmark for `url` in `v`: `v`
/// itself, or, within the children of `v`, one of them.
pub open spec fn holds_url(v: Json, url: Seq<char>) -> bool
    decreases v, 0int,
{
    proof {
        lemma_children_decrease(v);
    }
    is_url_node(v, url) || match children_of(v) {
        Some(cs) => holds_url_from(cs, 0, url),
        None => false,
    }
}

/// One of `cs[i..]` holds a bookmark for `url`.
pub open spec fn holds_url_from(cs: Seq<Json>, i: int, url: Seq<char>) -> bool
    decreases cs, cs.len() - i,
{
    if 0 <= i < cs.len() {
        holds_url(cs[i], url) || holds_url_from(cs, i + 1, url)
    } else {
        false
    }
}

/// `v` with its first bookmark for `url` (in search order: the node itself, then
/// its children in order, depth first) renamed to `name` and pointed at `new_url`.
pub open spec fn renamed(v: Json, url: Seq<char>, name: Seq<char>, new_url: Seq<char>) -> Json
    decreases v, 0int,
{
    proof {
        lemma_children_decrease(v);
    }
    if is_url_node(v, url) {
        obj_set(obj_set(v, "name"@, Json::Str(name)), "url"@, Json::Str(new_url))
    } else {
        match children_of(v) {
            Some(cs) => if holds_url_from(cs, 0, url) {
                with_children(v, renamed_from(cs, 0, url, name, new_url))
            } else {
                v
            },
            None => v,
        }
    }
}

/// `cs` with the first bookmark for `url` found in `cs[i..]` renamed.
pub open spec fn renamed_from(
    cs: Seq<Json>,
    i: int,
    url: Seq<char>,
    name: Seq<char>,
    new_url: Seq<char>,
) -> Seq<Json>
    decreases cs, cs.len() - i,
{
    if 0 <= i < cs.len() {
        if holds_url(cs[i], url) {
            cs.update(i, renamed(cs[i], url, name, new_url))
        } else {
            renamed_from(cs, i + 1, url, name, new_url)
        }
    } else {
        cs
    }
}

/// Detaches the children array of a node, leaving null in its place.
fn take_children(v: &mut JsonValue) -> (r: Option<Vec<JsonValue>>)
    ensures
        r matches Some(items) ==> children_of(old(v)@) == Some(items_model(items@)) && final(v)@
            == obj_set(old(v)@, "children"@, Json::Null) && *final(v) is Object,
        r is None ==> children_of(old(v)@) is None && final(v)@ == old(v)@,
{
    match take_member(v, "children") {
        Some(JsonValue::Array(items)) => {
            proof {
                lemma_array_model(items);
            }
            Some(items)
        },
        Some(other) => {
            let ghost x = other@;
            set_member(v, "children", other);
            proof {
                lemma_set_twice(old(v)@, "children"@, Json::Null, x);
                lemma_set_same(old(v)@, "children"@, x);
            }
            None
        },
        None => None,
    }
}

/// Puts back a children array detached by [`take_children`].
fn restore_children(v: &mut JsonValue, items: Vec<JsonValue>, Ghost(orig): Ghost<Json>)
    requires
        *old(v) is Object,
        old(v)@ == obj_set(orig, "children"@, Json::Null),
        orig is Object,
    ensures
        final(v)@ == with_children(orig, items_model(items@)),
{
    let ghost m = items_model(items@);
    proof {
        lemma_array_model(items);
    }
    set_member(v, "children", JsonValue::Array(items));
    proof {
        lemma_set_twice(orig, "children"@, Json::Null, Json::Array(m));
    }
}

/// A node's children written back unchanged leave the node as it was.
proof fn lemma_with_same_children(v: Json, cs: Seq<Json>)
    requires
        children_of(v) == Some(cs),
    ensures
        with_children(v, cs) == v,
{
    lemma_set_same(v, "children"@, Json::Array(cs));
}

/// Renames the first bookmark for `url` within `node` (see [`renamed`]); tells
/// whether there was one.
pub fn rename_in_node(node: &mut JsonValue, url: &str, name: &str, new_url: &str) -> (found: bool)
    ensures
        found == holds_url(old(node)@, url@),
        final(node)@ == renamed(old(node)@, url@, name@, new_url@),
    decreases old(node)@,
{
    let ghost v = node@;
    proof {
        lemma_children_decrease(v);
        lemma_get_object(*node, "type"@);
    }
    if crate::json::field_is(node, "type", "url") && crate::json::field_is(node, "url", url) {
        set_member(node, "name", JsonValue::Str(owned(name)));
        set_member(node, "url", JsonValue::Str(owned(new_url)));
        return true;
    }
    let taken = take_children(node);
    match taken {
        Some(mut items) => {
            let ghost cs = items_model(items@);
            let mut i: usize = 0;
            while i < items.len()
                invariant
                    v == old(node)@,
                    !is_url_node(v, url@),
                    v is Object,
                    *node is Object,
                    node@ == obj_set(v, "children"@, Json::Null),
                    children_of(v) == Some(cs),
                    items_model(items@) == cs,
                    i <= items@.len(),
                    holds_url_from(cs, 0, url@) == holds_url_from(cs, i as int, url@),
                    renamed_from(cs, 0, url@, name@, new_url@) == renamed_from(
                        cs,
                        i as int,
                        url@,
                        name@,
                        new_url@,
                    ),
                    forall|j: int| 0 <= j < cs.len() ==> decreases_to!(v => cs[j]),
                decreases items.len() - i,
            {
                assert(items@[i as int]@ == cs[i as int]);
                let hit = rename_in_node(&mut items[i], url, name, new_url);
                if hit {
                    proof {
                        assert(items_model(items@) =~= cs.update(
                            i as int,
                            renamed(cs[i as int], url@, name@, new_url@),
                        ));
                    }
                    restore_children(node, items, Ghost(v));
                    return true;
                }
                proof {
                    assert(items_model(items@) =~= cs);
                }
                i = i + 1;
            }
            proof {
                lemma_with_same_children(v, cs);
            }
            restore_children(node, items, Ghost(v));
            false
        },
        None => false,
    }
}


/// Renaming leaves a node without a matching bookmark as it was.
pub proof fn lemma_renamed_unchanged(v: Json, url: Seq<char>, name: Seq<char>, new_url: Seq<char>)
    requires
        !holds_url(v, url),
    ensures
        renamed(v, url, name, new_url) == v,
{
}

/// The first root folder, from the `i`-th on, whose tree holds a bookmark for
/// `url` gets it renamed; the roots object is otherwise unchanged.
pub open spec fn renamed_roots(
    roots: Json,
    i: int,
    url: Seq<char>,
    name: Seq<char>,
    new_url: Seq<char>,
) -> Json
    decreases 3 - i,
{
    if 0 <= i < 3 {
        match obj_get(roots, root_keys()[i]) {
            Some(r) => if holds_url(r, url) {
                obj_set(roots, root_keys()[i], renamed(r, url, name, new_url))
            } else {
                renamed_roots(roots, i + 1, url, name, new_url)
            },
            None => renamed_roots(roots, i + 1, url, name, new_url),
        }
    } else {
        roots
    }
}

/// Some root folder, from the `i`-th on, holds a bookmark for `url`.
pub open spec fn roots_hold_url(roots: Json, i: int, url: Seq<char>) -> bool
    decreases 3 - i,
{
    if 0 <= i < 3 {
        match obj_get(roots, root_keys()[i]) {
            Some(r) => holds_url(r, url) || roots_hold_url(roots, i + 1, url),
            None => roots_hold_url(roots, i + 1, url),
        }
    } else {
        false
    }
}

/// The document after renaming the first bookmark for `url`: the root folders are
/// searched in the order `bookmark_bar`, `other`, `synced`.
pub open spec fn renamed_document(doc: Json, url: Seq<char>, name: Seq<char>, new_url: Seq<char>) -> Json {
    match obj_get(doc, "roots"@) {
        Some(roots) => if roots_hold_url(roots, 0, url) {
            obj_set(doc, "roots"@, renamed_roots(roots, 0, url, name, new_url))
        } else {
            doc
        },
        None => doc,
    }
}

/// Whether the document holds a bookmark for `url` under one of its roots.
pub open spec fn document_holds_url(doc: Json, url: Seq<char>) -> bool {
    match obj_get(doc, "roots"@) {
        Some(roots) => roots_hold_url(roots, 0, url),
        None => false,
    }
}

/// Renames, in the roots object, the first bookmark for `url`.
fn rename_in_roots(roots: &mut JsonValue, url: &str, name: &str, new_url: &str) -> (found: bool)
    ensures
        found == roots_hold_url(old(roots)@, 0, url@),
        final(roots)@ == renamed_roots(old(roots)@, 0, url@, name@, new_url@),
{
    let ghost orig = roots@;
    let mut i: usize = 0;
    while i < 3
        invariant
            roots@ == orig,
            orig == old(roots)@,
            i <= 3,
            roots_hold_url(orig, 0, url@) == roots_hold_url(orig, i as int, url@),
            renamed_roots(orig, 0, url@, name@, new_url@) == renamed_roots(
                orig,
                i as int,
                url@,
                name@,
                new_url@,
            ),
        decreases 3 - i,
    {
        let key = root_key(i);
        match take_member(roots, key) {
            Some(mut root) => {
                let ghost r = root@;
                let hit = rename_in_node(&mut root, url, name, new_url);
                set_member(roots, key, root);
                proof {
                    lemma_set_twice(orig, key@, Json::Null, root@);
                }
                if hit {
                    return true;
                }
                proof {
                    lemma_renamed_unchanged(r, url@, name@, new_url@);
                    lemma_set_same(orig, key@, r);
                }
            },
            None => {},
        }
        i = i + 1;
    }
    false
}

/// `update_bookmarks_file` on a parsed document: renames the first bookmark for
/// `url` to `name` and points it at `new_url`; tells whether one was found.
pub fn rename_bookmark(doc: &mut JsonValue, url: &str, name: &str, new_url: &str) -> (found: bool)
    ensures
        found == document_holds_url(old(doc)@, url@),
        final(doc)@ == renamed_document(old(doc)@, url@, name@, new_url@),
{
    let ghost orig = doc@;
    match take_member(doc, "roots") {
        Some(mut roots) => {
            let ghost r = roots@;
            let found = rename_in_roots(&mut roots, url, name, new_url);
            set_member(doc, "roots", roots);
            proof {
                lemma_set_twice(orig, "roots"@, Json::Null, roots@);
                if !found {
                    lemma_roots_unchanged(r, 0, url@, name@, new_url@);
                    lemma_set_same(orig, "roots"@, r);
                }
            }
            found
        },
        None => false,
    }
}

/// Without a match, renaming in the roots changes nothing.
proof fn lemma_roots_unchanged(roots: Json, i: int, url: Seq<char>, name: Seq<char>, new_url: Seq<char>)
    requires
        !roots_hold_url(roots, i, url),
    ensures
        renamed_roots(roots, i, url, name, new_url) == roots,
    decreases 3 - i,
{
    if 0 <= i < 3 {
        lemma_roots_unchanged(roots, i + 1, url, name, new_url);
    }
}

/// A renamed bookmark is found under its new URL.
proof fn lemma_renamed_holds(v: Json, url: Seq<char>, name: Seq<char>, new_url: Seq<char>)
    requires
        holds_url(v, url),
    ensures
        holds_url(renamed(v, url, name, new_url), new_url),
    decreases v, 0int,
{
    lemma_children_decrease(v);
    if is_url_node(v, url) {
        reveal_strlit("url");
        reveal_strlit("type");
        reveal_strlit("name");
        assert("name"@[0] != "type"@[0]);
        assert("url"@[0] != "type"@[0]);
        let w1 = obj_set(v, "name"@, Json::Str(name));
        lemma_set_then_get(v, "name"@, Json::Str(name));
        lemma_set_other(v, "name"@, Json::Str(name), "type"@);
        lemma_set_then_get(w1, "url"@, Json::Str(new_url));
        lemma_set_other(w1, "url"@, Json::Str(new_url), "type"@);
    } else {
        let cs = children_of(v)->Some_0;
        lemma_renamed_from_holds(cs, 0, url, name, new_url);
        lemma_set_then_get(v, "children"@, Json::Array(renamed_from(cs, 0, url, name, new_url)));
    }
}

/// Renaming within `cs[i..]` leaves a bookmark for the new URL there.
proof fn lemma_renamed_from_holds(cs: Seq<Json>, i: int, url: Seq<char>, name: Seq<char>, new_url: Seq<char>)
    requires
        holds_url_from(cs, i, url),
    ensures
        holds_url_from(renamed_from(cs, i, url, name, new_url), i, new_url),
    decreases cs, cs.len() - i,
{
    if holds_url(cs[i], url) {
        lemma_renamed_holds(cs[i], url, name, new_url);
    } else {
        lemma_renamed_from_holds(cs, i + 1, url, name, new_url);
    }
}

/// A root folder from the `i`-th on holding a bookmark for `url` keeps holding
/// one from any earlier root on.
proof fn lemma_roots_hold_from_earlier(roots: Json, a: int, b: int, url: Seq<char>)
    requires
        0 <= a <= b,
        roots_hold_url(roots, b, url),
    ensures
        roots_hold_url(roots, a, url),
    decreases b - a,
{
    if a < b {
        lemma_roots_hold_from_earlier(roots, a + 1, b, url);
    }
}

/// Renaming within the roots leaves a bookmark for the new URL there.
proof fn lemma_renamed_roots_hold(roots: Json, i: int, url: Seq<char>, name: Seq<char>, new_url: Seq<char>)
    requires
        0 <= i,
        roots_hold_url(roots, i, url),
    ensures
        roots_hold_url(renamed_roots(roots, i, url, name, new_url), i, new_url),
    decreases 3 - i,
{
    match obj_get(roots, root_keys()[i]) {
        Some(r) => if holds_url(r, url) {
            lemma_renamed_holds(r, url, name, new_url);
            lemma_set_then_get(roots, root_keys()[i], renamed(r, url, name, new_url));
        } else {
            lemma_renamed_roots_hold(roots, i + 1, url, name, new_url);
            lemma_roots_hold_from_earlier(renamed_roots(roots, i + 1, url, name, new_url), i, i + 1, new_url);
        },
        None => {
            lemma_renamed_roots_hold(roots, i + 1, url, name, new_url);
            lemma_roots_hold_from_earlier(renamed_roots(roots, i + 1, url, name, new_url), i, i + 1, new_url);
        },
    }
}

/// What an update writes can be read back: when the document holds a bookmark
/// for `url`, after renaming it the document holds a bookmark for `new_url`;
/// when it holds none, the document is unchanged.
pub proof fn law_rename_then_find(doc: Json, url: Seq<char>, name: Seq<char>, new_url: Seq<char>)
    ensures
        document_holds_url(doc, url) ==> document_holds_url(renamed_document(doc, url, name, new_url), new_url),
        !document_holds_url(doc, url) ==> renamed_document(doc, url, name, new_url) == doc,
{
    if document_holds_url(doc, url) {
        let roots = obj_get(doc, "roots"@)->Some_0;
        lemma_renamed_roots_hold(roots, 0, url, name, new_url);
        lemma_set_then_get(doc, "roots"@, renamed_roots(roots, 0, url, name, new_url));
    }
}

// ---------------------------------------------------------------------------
// Filtering children

/// The elements of `s[..n]` that `drop` does not hold of, in order.
pub open spec fn kept<A>(s: Seq<A>, drop: spec_fn(A) -> bool, n: int) -> Seq<A>
    decreases n,
{
    if n <= 0 {
        Seq::empty()
    } else {
        let r = kept(s, drop, n - 1);
        if drop(s[n - 1]) {
            r
        } else {
            r.push(s[n - 1])
        }
    }
}

/// `Vec::retain` with the negation of `drop`: the elements of `s` that `drop`
/// does not hold of, in order.
pub open spec fn without<A>(s: Seq<A>, drop: spec_fn(A) -> bool) -> Seq<A> {
    kept(s, drop, s.len() as int)
}

/// Filtering removes something exactly when `drop` holds of some element.
pub proof fn lemma_kept_len<A>(s: Seq<A>, drop: spec_fn(A) -> bool, n: int)
    requires
        0 <= n <= s.len(),
    ensures
        kept(s, drop, n).len() <= n,
        kept(s, drop, n).len() == n <==> forall|j: int| 0 <= j < n ==> !drop(#[trigger] s[j]),
    decreases n,
{
    if n > 0 {
        lemma_kept_len(s, drop, n - 1);
    }
}

/// What a child filter removes.
pub enum Matcher {
    /// Bookmarks (`"type": "url"`) for this URL.
    Bookmark(String),
    /// Folders with this name and an empty children array.
    EmptyFolder(String),
}

/// The node is a folder named `name` whose children array is empty.
pub open spec fn is_empty_folder(v: Json, name: Seq<char>) -> bool {
    &&& field_str(v, "type"@) == Some("folder"@)
    &&& field_str(v, "name"@) == Some(name)
    &&& children_of(v) matches Some(cs) && cs.len() == 0
}

impl Matcher {
    /// The predicate this matcher stands for.
    pub open spec fn pred(&self) -> spec_fn(Json) -> bool {
        match self {
            Matcher::Bookmark(url) => url_node_pred(url@),
            Matcher::EmptyFolder(name) => |c: Json| is_empty_folder(c, name@),
        }
    }

    /// Whether the matcher holds of `v`.
    pub fn test(&self, v: &JsonValue) -> (r: bool)
        ensures
            r == self.pred()(v@),
    {
        match self {
            Matcher::Bookmark(url) => crate::json::field_is(v, "type", "url")
                && crate::json::field_is(v, "url", url.as_str()),
            Matcher::EmptyFolder(name) => {
                if crate::json::field_is(v, "type", "folder") && crate::json::field_is(
                    v,
                    "name",
                    name.as_str(),
                ) {
                    match crate::json::get(v, "children") {
                        Some(JsonValue::Array(cs)) => {
                            proof {
                                lemma_array_model(*cs);
                            }
                            cs.len() == 0
                        },
                        _ => false,
                    }
                } else {
                    false
                }
            },
        }
    }
}

/// Keeps the items the matcher does not hold of, in order.
fn retain_unmatched(items: Vec<JsonValue>, m: &Matcher) -> (r: Vec<JsonValue>)
    ensures
        items_model(r@) == without(items_model(items@), m.pred()),
{
    let ghost s = items_model(items@);
    let mut out: Vec<JsonValue> = Vec::new();
    let mut n: usize = 0;
    let len = items.len();
    for c in it: items.into_iter()
        invariant
            s == items_model(it.seq()),
            it.seq().len() == len,
            n == it.index(),
            items_model(out@) == kept(s, m.pred(), n as int),
    {
        assert(c@ == s[n as int]);
        let ghost before = out@;
        if !m.test(&c) {
            out.push(c);
            assert(items_model(out@) =~= items_model(before).push(s[n as int]));
        }
        assert(n < len);
        n = n + 1;
    }
    out
}

// ---------------------------------------------------------------------------
// Deleting a bookmark

/// The search that deletes bookmarks for `url` succeeds in `v`: some child of `v`
/// is such a bookmark, or the search succeeds in one of the children.
pub open spec fn deletes_url(v: Json, url: Seq<char>) -> bool
    decreases v, 0int,
{
    proof {
        lemma_children_decrease(v);
    }
    match children_of(v) {
        Some(cs) => any(cs, url_node_pred(url)) || deletes_url_from(cs, 0, url),
        None => false,
    }
}

/// The deletion search succeeds in one of `cs[i..]`.
pub open spec fn deletes_url_from(cs: Seq<Json>, i: int, url: Seq<char>) -> bool
    decreases cs, cs.len() - i,
{
    if 0 <= i < cs.len() {
        deletes_url(cs[i], url) || deletes_url_from(cs, i + 1, url)
    } else {
        false
    }
}

/// `v` after the deletion search for `url`: at the first level (from `v` down,
/// children in order) that has bookmarks for `url` among its direct children, all
/// of those bookmarks are removed; nothing else changes.
pub open spec fn deleted(v: Json, url: Seq<char>) -> Json
    decreases v, 0int,
{
    proof {
        lemma_children_decrease(v);
    }
    match children_of(v) {
        Some(cs) => if any(cs, url_node_pred(url)) {
            with_children(v, without(cs, url_node_pred(url)))
        } else if deletes_url_from(cs, 0, url) {
            with_children(v, deleted_from(cs, 0, url))
        } else {
            v
        },
        None => v,
    }
}

/// `cs` after the deletion search in the first of `cs[i..]` where it succeeds.
pub open spec fn deleted_from(cs: Seq<Json>, i: int, url: Seq<char>) -> Seq<Json>
    decreases cs, cs.len() - i,
{
    if 0 <= i < cs.len() {
        if deletes_url(cs[i], url) {
            cs.update(i, deleted(cs[i], url))
        } else {
            deleted_from(cs, i + 1, url)
        }
    } else {
        cs
    }
}

/// The deletion search in `node` (see [`deleted`]); tells whether it removed anything.
pub fn delete_in_node(node: &mut JsonValue, m: &Matcher) -> (found: bool)
    requires
        m is Bookmark,
    ensures
        found == deletes_url(old(node)@, m->Bookmark_0@),
        final(node)@ == deleted(old(node)@, m->Bookmark_0@),
    decreases old(node)@,
{
    let ghost v = node@;
    let ghost url = m->Bookmark_0@;
    proof {
        lemma_children_decrease(v);
    }
    let taken = take_children(node);
    match taken {
        Some(items) => {
            let ghost cs = items_model(items@);
            let before = items.len();
            let mut items = retain_unmatched(items, m);
            proof {
                lemma_kept_len(cs, url_node_pred(url), cs.len() as int);
            }
            if items.len() < before {
                restore_children(node, items, Ghost(v));
                return true;
            }
            proof {
                assert(!any(cs, url_node_pred(url)));
                lemma_kept_all(cs, url_node_pred(url), cs.len() as int);
            }
            let mut i: usize = 0;
            while i < items.len()
                invariant
                    v == old(node)@,
                    url == m->Bookmark_0@,
                    m is Bookmark,
                    v is Object,
                    *node is Object,
                    node@ == obj_set(v, "children"@, Json::Null),
                    children_of(v) == Some(cs),
                    !any(cs, url_node_pred(url)),
                    items_model(items@) == cs,
                    i <= items@.len(),
                    deletes_url_from(cs, 0, url) == deletes_url_from(cs, i as int, url),
                    deleted_from(cs, 0, url) == deleted_from(cs, i as int, url),
                    forall|j: int| 0 <= j < cs.len() ==> decreases_to!(v => cs[j]),
                decreases items.len() - i,
            {
                assert(items@[i as int]@ == cs[i as int]);
                let hit = delete_in_node(&mut items[i], m);
                if hit {
                    proof {
                        assert(items_model(items@) =~= cs.update(
                            i as int,
                            deleted(cs[i as int], url),
                        ));
                    }
                    restore_children(node, items, Ghost(v));
                    return true;
                }
                proof {
                    assert(items_model(items@) =~= cs);
                }
                i = i + 1;
            }
            proof {
                lemma_with_same_children(v, cs);
            }
            restore_children(node, items, Ghost(v));
            false
        },
        None => false,
    }
}

/// Filtering with a predicate that holds of nothing keeps everything.
pub proof fn lemma_kept_all<A>(s: Seq<A>, drop: spec_fn(A) -> bool, n: int)
    requires
        0 <= n <= s.len(),
        forall|j: int| 0 <= j < n ==> !drop(#[trigger] s[j]),
    ensures
        kept(s, drop, n) == s.take(n),
    decreases n,
{
    if n > 0 {
        lemma_kept_all(s, drop, n - 1);
        assert(s.take(n) =~= s.take(n - 1).push(s[n - 1]));
    } else {
        assert(s.take(0) =~= Seq::<A>::empty());
    }
}

/// Without success, the deletion search changes nothing.
pub proof fn lemma_deleted_unchanged(v: Json, url: Seq<char>)
    requires
        !deletes_url(v, url),
    ensures
        deleted(v, url) == v,
{
}

/// The deletion search over the root folders from the `i`-th on: it runs in each
/// present root in turn and stops at the first where it succeeds.
pub open spec fn deleted_roots(roots: Json, i: int, url: Seq<char>) -> Json
    decreases 3 - i,
{
    if 0 <= i < 3 {
        match obj_get(roots, root_keys()[i]) {
            Some(r) => if deletes_url(r, url) {
                obj_set(roots, root_keys()[i], deleted(r, url))
            } else {
                deleted_roots(roots, i + 1, url)
            },
            None => deleted_roots(roots, i + 1, url),
        }
    } else {
        roots
    }
}

/// The deletion search succeeds in some root folder from the `i`-th on.
pub open spec fn roots_delete_url(roots: Json, i: int, url: Seq<char>) -> bool
    decreases 3 - i,
{
    if 0 <= i < 3 {
        match obj_get(roots, root_keys()[i]) {
            Some(r) => deletes_url(r, url) || roots_delete_url(roots, i + 1, url),
            None => roots_delete_url(roots, i + 1, url),
        }
    } else {
        false
    }
}

/// The document after deleting the bookmarks for `url` (see [`deleted`]).
pub open spec fn deleted_document(doc: Json, url: Seq<char>) -> Json {
    match obj_get(doc, "roots"@) {
        Some(roots) => if roots_delete_url(roots, 0, url) {
            obj_set(doc, "roots"@, deleted_roots(roots, 0, url))
        } else {
            doc
        },
        None => doc,
    }
}

/// Whether deleting the bookmarks for `url` changes the document.
pub open spec fn document_deletes_url(doc: Json, url: Seq<char>) -> bool {
    match obj_get(doc, "roots"@) {
        Some(roots) => roots_delete_url(roots, 0, url),
        None => false,
    }
}

proof fn lemma_deleted_roots_unchanged(roots: Json, i: int, url: Seq<char>)
    requires
        !roots_delete_url(roots, i, url),
    ensures
        deleted_roots(roots, i, url) == roots,
    decreases 3 - i,
{
    if 0 <= i < 3 {
        lemma_deleted_roots_unchanged(roots, i + 1, url);
    }
}

/// `delete_bookmark_from_file` on a parsed document (see [`deleted`]); tells
/// whether anything was removed.
pub fn delete_bookmark(doc: &mut JsonValue, url: &str) -> (found: bool)
    ensures
        found == document_deletes_url(old(doc)@, url@),
        final(doc)@ == deleted_document(old(doc)@, url@),
{
    let ghost orig = doc@;
    let m = Matcher::Bookmark(owned(url));
    match take_member(doc, "roots") {
        Some(mut roots) => {
            let ghost r0 = roots@;
            let mut found = false;
            let mut i: usize = 0;
            while i < 3 && !found
                invariant
                    m == Matcher::Bookmark(m->Bookmark_0),
                    m->Bookmark_0@ == url@,
                    !found ==> roots@ == r0,
                    found ==> roots@ == deleted_roots(r0, 0, url@) && roots_delete_url(r0, 0, url@),
                    !found ==> roots_delete_url(r0, 0, url@) == roots_delete_url(r0, i as int, url@),
                    !found ==> deleted_roots(r0, 0, url@) == deleted_roots(r0, i as int, url@),
                    i <= 3,
                decreases 3 - i,
            {
                let key = root_key(i);
                match take_member(&mut roots, key) {
                    Some(mut root) => {
                        let ghost rv = root@;
                        let hit = delete_in_node(&mut root, &m);
                        set_member(&mut roots, key, root);
                        proof {
                            lemma_set_twice(r0, key@, Json::Null, root@);
                            if !hit {
                                lemma_deleted_unchanged(rv, url@);
                                lemma_set_same(r0, key@, rv);
                            }
                        }
                        found = hit;
                    },
                    None => {},
                }
                i = i + 1;
            }
            set_member(doc, "roots", roots);
            proof {
                lemma_set_twice(orig, "roots"@, Json::Null, roots@);
                if !found {
                    lemma_deleted_roots_unchanged(r0, 0, url@);
                    lemma_set_same(orig, "roots"@, r0);
                }
            }
            found
        },
        None => false,
    }
}

// ---------------------------------------------------------------------------
// Deleting an empty folder

/// The node is a folder named `name`.
pub open spec fn is_folder_named(v: Json, name: Seq<char>) -> bool {
    field_str(v, "type"@) == Some("folder"@) && field_str(v, "name"@) == Some(name)
}

/// Predicate form of [`is_empty_folder`].
pub open spec fn empty_folder_pred(name: Seq<char>) -> spec_fn(Json) -> bool {
    |c: Json| is_empty_folder(c, name)
}

/// Following the folder path `parts[p..]` down from `v`, an empty folder named
/// `target` is found among the children at the end of the path. Where several
/// children match a part, each is tried in order.
pub open spec fn removes_folder(v: Json, parts: Seq<Seq<char>>, p: int, target: Seq<char>) -> bool
    decreases v, 0int,
{
    proof {
        lemma_children_decrease(v);
    }
    match children_of(v) {
        Some(cs) => if p >= parts.len() {
            any(cs, empty_folder_pred(target))
        } else {
            removes_folder_from(cs, 0, parts, p, target)
        },
        None => false,
    }
}

/// The path search succeeds through one of `cs[i..]`.
pub open spec fn removes_folder_from(
    cs: Seq<Json>,
    i: int,
    parts: Seq<Seq<char>>,
    p: int,
    target: Seq<char>,
) -> bool
    decreases cs, cs.len() - i,
{
    if 0 <= i < cs.len() {
        (is_folder_named(cs[i], parts[p]) && removes_folder(cs[i], parts, p + 1, target))
            || removes_folder_from(cs, i + 1, parts, p, target)
    } else {
        false
    }
}

/// `v` after the path search: at the end of the first path that leads to an
/// empty folder named `target`, all such empty folders are removed.
pub open spec fn folder_removed(v: Json, parts: Seq<Seq<char>>, p: int, target: Seq<char>) -> Json
    decreases v, 0int,
{
    proof {
        lemma_children_decrease(v);
    }
    match children_of(v) {
        Some(cs) => if p >= parts.len() {
            if any(cs, empty_folder_pred(target)) {
                with_children(v, without(cs, empty_folder_pred(target)))
            } else {
                v
            }
        } else if removes_folder_from(cs, 0, parts, p, target) {
            with_children(v, folder_removed_from(cs, 0, parts, p, target))
        } else {
            v
        },
        None => v,
    }
}

/// `cs` after the path search in the first of `cs[i..]` through which it succeeds.
pub open spec fn folder_removed_from(
    cs: Seq<Json>,
    i: int,
    parts: Seq<Seq<char>>,
    p: int,
    target: Seq<char>,
) -> Seq<Json>
    decreases cs, cs.len() - i,
{
    if 0 <= i < cs.len() {
        if is_folder_named(cs[i], parts[p]) && removes_folder(cs[i], parts, p + 1, target) {
            cs.update(i, folder_removed(cs[i], parts, p + 1, target))
        } else {
            folder_removed_from(cs, i + 1, parts, p, target)
        }
    } else {
        cs
    }
}

/// Without success, the path search changes nothing.
pub proof fn lemma_folder_removed_unchanged(v: Json, parts: Seq<Seq<char>>, p: int, target: Seq<char>)
    requires
        !removes_folder(v, parts, p, target),
    ensures
        folder_removed(v, parts, p, target) == v,
{
}

/// The path search in `node` (see [`folder_removed`]); tells whether it removed a folder.
fn remove_folder_in_node(node: &mut JsonValue, parts: &Vec<String>, p: usize, m: &Matcher) -> (found: bool)
    requires
        m is EmptyFolder,
        p <= parts@.len(),
    ensures
        found == removes_folder(old(node)@, strings_model(parts@), p as int, m->EmptyFolder_0@),
        final(node)@ == folder_removed(old(node)@, strings_model(parts@), p as int, m->EmptyFolder_0@),
    decreases old(node)@,
{
    let ghost v = node@;
    let ghost target = m->EmptyFolder_0@;
    let ghost ps = strings_model(parts@);
    proof {
        lemma_children_decrease(v);
    }
    let taken = take_children(node);
    match taken {
        Some(items) => {
            let ghost cs = items_model(items@);
            if p >= parts.len() {
                let before = items.len();
                let items = retain_unmatched(items, m);
                proof {
                    lemma_kept_len(cs, empty_folder_pred(target), cs.len() as int);
                    assert(m.pred() == empty_folder_pred(target));
                }
                if items.len() < before {
                    restore_children(node, items, Ghost(v));
                    return true;
                }
                proof {
                    lemma_kept_all(cs, empty_folder_pred(target), cs.len() as int);
                    assert(cs.take(cs.len() as int) =~= cs);
                    lemma_with_same_children(v, cs);
                }
                restore_children(node, items, Ghost(v));
                return false;
            }
            let mut items = items;
            let part = parts[p].as_str();
            let np = parts.len();
            let mut i: usize = 0;
            while i < items.len()
                invariant
                    v == old(node)@,
                    target == m->EmptyFolder_0@,
                    m is EmptyFolder,
                    ps == strings_model(parts@),
                    p < parts@.len(),
                    np == parts@.len(),
                    part@ == ps[p as int],
                    v is Object,
                    *node is Object,
                    node@ == obj_set(v, "children"@, Json::Null),
                    children_of(v) == Some(cs),
                    items_model(items@) == cs,
                    i <= items@.len(),
                    removes_folder_from(cs, 0, ps, p as int, target) == removes_folder_from(
                        cs,
                        i as int,
                        ps,
                        p as int,
                        target,
                    ),
                    folder_removed_from(cs, 0, ps, p as int, target) == folder_removed_from(
                        cs,
                        i as int,
                        ps,
                        p as int,
                        target,
                    ),
                    forall|j: int| 0 <= j < cs.len() ==> decreases_to!(v => cs[j]),
                decreases items.len() - i,
            {
                assert(items@[i as int]@ == cs[i as int]);
                let named = crate::json::field_is(&items[i], "type", "folder")
                    && crate::json::field_is(&items[i], "name", part);
                if named {
                    let hit = remove_folder_in_node(&mut items[i], parts, p + 1, m);
                    if hit {
                        proof {
                            assert(items_model(items@) =~= cs.update(
                                i as int,
                                folder_removed(cs[i as int], ps, p + 1, target),
                            ));
                        }
                        restore_children(node, items, Ghost(v));
                        return true;
                    }
                }
                proof {
                    assert(items_model(items@) =~= cs);
                }
                i = i + 1;
            }
            proof {
                lemma_with_same_children(v, cs);
            }
            restore_children(node, items, Ghost(v));
            false
        },
        None => false,
    }
}

/// The `"name"` of a root folder, or the empty string.
pub open spec fn root_name(r: Json) -> Seq<char> {
    match field_str(r, "name"@) {
        Some(n) => n,
        None => Seq::empty(),
    }
}

/// Where the folder path starts inside root `r`: an empty path means the root
/// itself; otherwise its first part must be the root's name, and the search goes
/// on from the second part. `None` when the path does not start at this root.
pub open spec fn path_start(r: Json, parts: Seq<Seq<char>>) -> Option<int> {
    if parts.len() == 0 {
        Some(0)
    } else if parts[0] == root_name(r) {
        Some(1)
    } else {
        None
    }
}

/// The folder search succeeds in root `r`.
pub open spec fn root_removes_folder(r: Json, parts: Seq<Seq<char>>, target: Seq<char>) -> bool {
    match path_start(r, parts) {
        Some(p) => removes_folder(r, parts, p, target),
        None => false,
    }
}

/// Root `r` after the folder search.
pub open spec fn root_folder_removed(r: Json, parts: Seq<Seq<char>>, target: Seq<char>) -> Json {
    match path_start(r, parts) {
        Some(p) => folder_removed(r, parts, p, target),
        None => r,
    }
}

/// The folder search over the roots from the `i`-th on, stopping at the first
/// root where it succeeds.
pub open spec fn folder_removed_roots(roots: Json, i: int, parts: Seq<Seq<char>>, target: Seq<char>) -> Json
    decreases 3 - i,
{
    if 0 <= i < 3 {
        match obj_get(roots, root_keys()[i]) {
            Some(r) => if root_removes_folder(r, parts, target) {
                obj_set(roots, root_keys()[i], root_folder_removed(r, parts, target))
            } else {
                folder_removed_roots(roots, i + 1, parts, target)
            },
            None => folder_removed_roots(roots, i + 1, parts, target),
        }
    } else {
        roots
    }
}

/// The folder search succeeds in some root from the `i`-th on.
pub open spec fn roots_remove_folder(roots: Json, i: int, parts: Seq<Seq<char>>, target: Seq<char>) -> bool
    decreases 3 - i,
{
    if 0 <= i < 3 {
        match obj_get(roots, root_keys()[i]) {
            Some(r) => root_removes_folder(r, parts, target) || roots_remove_folder(
                roots,
                i + 1,
                parts,
                target,
            ),
            None => roots_remove_folder(roots, i + 1, parts, target),
        }
    } else {
        false
    }
}

/// The document after deleting the empty folder `name` found under the folder
/// path `parent` (a path such as `"Bookmarks bar/sub"` whose first part names a
/// root folder; an empty path means directly inside a root).
pub open spec fn empty_folder_deleted(doc: Json, parent: Seq<char>, name: Seq<char>) -> Json {
    match obj_get(doc, "roots"@) {
        Some(roots) => if roots_remove_folder(roots, 0, path_parts(parent), name) {
            obj_set(doc, "roots"@, folder_removed_roots(roots, 0, path_parts(parent), name))
        } else {
            doc
        },
        None => doc,
    }
}

/// Whether deleting the empty folder changes the document.
pub open spec fn document_removes_folder(doc: Json, parent: Seq<char>, name: Seq<char>) -> bool {
    match obj_get(doc, "roots"@) {
        Some(roots) => roots_remove_folder(roots, 0, path_parts(parent), name),
        None => false,
    }
}

proof fn lemma_folder_roots_unchanged(roots: Json, i: int, parts: Seq<Seq<char>>, target: Seq<char>)
    requires
        !roots_remove_folder(roots, i, parts, target),
    ensures
        folder_removed_roots(roots, i, parts, target) == roots,
    decreases 3 - i,
{
    if 0 <= i < 3 {
        lemma_folder_roots_unchanged(roots, i + 1, parts, target);
    }
}

/// The folder search in one root (see [`root_folder_removed`]).
fn remove_folder_in_root(root: &mut JsonValue, parts: &Vec<String>, m: &Matcher) -> (found: bool)
    requires
        m is EmptyFolder,
    ensures
        found == root_removes_folder(old(root)@, strings_model(parts@), m->EmptyFolder_0@),
        final(root)@ == root_folder_removed(old(root)@, strings_model(parts@), m->EmptyFolder_0@),
{
    let ghost ps = strings_model(parts@);
    if parts.len() == 0 {
        return remove_folder_in_node(root, parts, 0, m);
    }
    let name = match crate::json::get_str(root, "name") {
        Some(n) => n,
        None => "",
    };
    proof {
        assert(ps[0] == parts@[0]@);
        reveal_strlit("");
        assert(""@ =~= Seq::<char>::empty());
        assert(name@ == root_name(root@));
    }
    if crate::text::str_eq(parts[0].as_str(), name) {
        remove_folder_in_node(root, parts, 1, m)
    } else {
        false
    }
}

/// `delete_empty_folder_from_file` on a parsed document (see
/// [`empty_folder_deleted`]); tells whether a folder was removed.
pub fn delete_empty_folder(doc: &mut JsonValue, parent_folder: &str, folder_name: &str) -> (found: bool)
    ensures
        found == document_removes_folder(old(doc)@, parent_folder@, folder_name@),
        final(doc)@ == empty_folder_deleted(old(doc)@, parent_folder@, folder_name@),
{
    let ghost orig = doc@;
    let parts = crate::text::split_path(parent_folder);
    let ghost ps = strings_model(parts@);
    let m = Matcher::EmptyFolder(owned(folder_name));
    match take_member(doc, "roots") {
        Some(mut roots) => {
            let ghost r0 = roots@;
            let mut found = false;
            let mut i: usize = 0;
            while i < 3 && !found
                invariant
                    m == Matcher::EmptyFolder(m->EmptyFolder_0),
                    m->EmptyFolder_0@ == folder_name@,
                    ps == strings_model(parts@),
                    ps == crate::text::path_parts(parent_folder@),
                    !found ==> roots@ == r0,
                    found ==> roots@ == folder_removed_roots(r0, 0, ps, folder_name@)
                        && roots_remove_folder(r0, 0, ps, folder_name@),
                    !found ==> roots_remove_folder(r0, 0, ps, folder_name@) == roots_remove_folder(
                        r0,
                        i as int,
                        ps,
                        folder_name@,
                    ),
                    !found ==> folder_removed_roots(r0, 0, ps, folder_name@) == folder_removed_roots(
                        r0,
                        i as int,
                        ps,
                        folder_name@,
                    ),
                    i <= 3,
                decreases 3 - i,
            {
                let key = root_key(i);
                match take_member(&mut roots, key) {
                    Some(mut root) => {
                        let ghost rv = root@;
                        let hit = remove_folder_in_root(&mut root, &parts, &m);
                        set_member(&mut roots, key, root);
                        proof {
                            lemma_set_twice(r0, key@, Json::Null, root@);
                            if !hit {
                                if let Some(p) = path_start(rv, ps) {
                                    lemma_folder_removed_unchanged(rv, ps, p, folder_name@);
                                }
                                lemma_set_same(r0, key@, rv);
                            }
                        }
                        found = hit;
                    },
                    None => {},
                }
                i = i + 1;
            }
            set_member(doc, "roots", roots);
            proof {
                lemma_set_twice(orig, "roots"@, Json::Null, roots@);
                if !found {
                    lemma_folder_roots_unchanged(r0, 0, ps, folder_name@);
                    lemma_set_same(orig, "roots"@, r0);
                }
            }
            found
        },
        None => false,
    }
}

// ---------------------------------------------------------------------------
// Moving a bookmark

/// The search that takes out a bookmark for `url` succeeds in `v`: one of the
/// children of `v` is such a bookmark, or the search succeeds in one of them.
pub open spec fn captures(v: Json, url: Seq<char>) -> bool
    decreases v, 0int,
{
    proof {
        lemma_children_decrease(v);
    }
    match children_of(v) {
        Some(cs) => any(cs, url_node_pred(url)) || captures_from(cs, 0, url),
        None => false,
    }
}

/// The take-out search succeeds in one of `cs[i..]`.
pub open spec fn captures_from(cs: Seq<Json>, i: int, url: Seq<char>) -> bool
    decreases cs, cs.len() - i,
{
    if 0 <= i < cs.len() {
        captures(cs[i], url) || captures_from(cs, i + 1, url)
    } else {
        false
    }
}

/// The bookmark that the take-out search removes from `v`: the first child that
/// is a bookmark for `url` at the first level (from `v` down, children in order)
/// that has one.
pub open spec fn captured(v: Json, url: Seq<char>) -> Json
    decreases v, 0int,
{
    proof {
        lemma_children_decrease(v);
        if let Some(cs) = children_of(v) {
            if any(cs, url_node_pred(url)) {
                lemma_first_exists(cs, url_node_pred(url));
            }
        }
    }
    match children_of(v) {
        Some(cs) => if any(cs, url_node_pred(url)) {
            cs[first(cs, url_node_pred(url))]
        } else {
            captured_from(cs, 0, url)
        },
        None => Json::Null,
    }
}

/// The bookmark taken out of the first of `cs[i..]` where the search succeeds.
pub open spec fn captured_from(cs: Seq<Json>, i: int, url: Seq<char>) -> Json
    decreases cs, cs.len() - i,
{
    if 0 <= i < cs.len() {
        if captures(cs[i], url) {
            captured(cs[i], url)
        } else {
            captured_from(cs, i + 1, url)
        }
    } else {
        Json::Null
    }
}

/// `v` after the take-out search removed [`captured`] from it.
pub open spec fn after_capture(v: Json, url: Seq<char>) -> Json
    decreases v, 0int,
{
    proof {
        lemma_children_decrease(v);
    }
    match children_of(v) {
        Some(cs) => if any(cs, url_node_pred(url)) {
            with_children(v, cs.remove(first(cs, url_node_pred(url))))
        } else if captures_from(cs, 0, url) {
            with_children(v, after_capture_from(cs, 0, url))
        } else {
            v
        },
        None => v,
    }
}

/// `cs` after the take-out search in the first of `cs[i..]` where it succeeds.
pub open spec fn after_capture_from(cs: Seq<Json>, i: int, url: Seq<char>) -> Seq<Json>
    decreases cs, cs.len() - i,
{
    if 0 <= i < cs.len() {
        if captures(cs[i], url) {
            cs.update(i, after_capture(cs[i], url))
        } else {
            after_capture_from(cs, i + 1, url)
        }
    } else {
        cs
    }
}

/// Without success, the take-out search changes nothing.
pub proof fn lemma_after_capture_unchanged(v: Json, url: Seq<char>)
    requires
        !captures(v, url),
    ensures
        after_capture(v, url) == v,
{
}

/// The first child that is a bookmark for `url`, if any.
fn first_matching(items: &Vec<JsonValue>, m: &Matcher) -> (r: Option<usize>)
    ensures
        r matches Some(k) ==> is_first(items_model(items@), m.pred(), k as int),
        r is None ==> !any(items_model(items@), m.pred()),
{
    let ghost cs = items_model(items@);
    let mut i: usize = 0;
    while i < items.len()
        invariant
            cs == items_model(items@),
            i <= items@.len(),
            forall|j: int| 0 <= j < i ==> !m.pred()(#[trigger] cs[j]),
        decreases items.len() - i,
    {
        if m.test(&items[i]) {
            return Some(i);
        }
        i = i + 1;
    }
    None
}

/// The take-out search in `node` (see [`captured`] and [`after_capture`]).
fn capture_in_node(node: &mut JsonValue, m: &Matcher) -> (r: Option<JsonValue>)
    requires
        m is Bookmark,
    ensures
        r is Some == captures(old(node)@, m->Bookmark_0@),
        r matches Some(x) ==> x@ == captured(old(node)@, m->Bookmark_0@),
        final(node)@ == after_capture(old(node)@, m->Bookmark_0@),
    decreases old(node)@,
{
    let ghost v = node@;
    let ghost url = m->Bookmark_0@;
    proof {
        lemma_children_decrease(v);
    }
    let taken = take_children(node);
    match taken {
        Some(mut items) => {
            let ghost cs = items_model(items@);
            match first_matching(&items, m) {
                Some(k) => {
                    proof {
                        lemma_first_unique(cs, url_node_pred(url), k as int);
                    }
                    let x = items.remove(k);
                    assert(items_model(items@) =~= cs.remove(k as int));
                    restore_children(node, items, Ghost(v));
                    return Some(x);
                },
                None => {},
            }
            let mut i: usize = 0;
            while i < items.len()
                invariant
                    v == old(node)@,
                    url == m->Bookmark_0@,
                    m is Bookmark,
                    v is Object,
                    *node is Object,
                    node@ == obj_set(v, "children"@, Json::Null),
                    children_of(v) == Some(cs),
                    !any(cs, url_node_pred(url)),
                    items_model(items@) == cs,
                    i <= items@.len(),
                    captures_from(cs, 0, url) == captures_from(cs, i as int, url),
                    captured_from(cs, 0, url) == captured_from(cs, i as int, url),
                    after_capture_from(cs, 0, url) == after_capture_from(cs, i as int, url),
                    forall|j: int| 0 <= j < cs.len() ==> decreases_to!(v => cs[j]),
                decreases items.len() - i,
            {
                assert(items@[i as int]@ == cs[i as int]);
                let hit = capture_in_node(&mut items[i], m);
                match hit {
                    Some(x) => {
                        proof {
                            assert(items_model(items@) =~= cs.update(
                                i as int,
                                after_capture(cs[i as int], url),
                            ));
                        }
                        restore_children(node, items, Ghost(v));
                        return Some(x);
                    },
                    None => {},
                }
                proof {
                    assert(items_model(items@) =~= cs);
                }
                i = i + 1;
            }
            proof {
                lemma_with_same_children(v, cs);
            }
            restore_children(node, items, Ghost(v));
            None
        },
        None => None,
    }
}

/// A new, empty folder named `name`, as the move creates one.
pub open spec fn new_folder(name: Seq<char>) -> Json {
    Json::Object(
        seq![
            ("children"@, Json::Array(Seq::empty())),
            ("name"@, Json::Str(name)),
            ("type"@, Json::Str("folder"@)),
        ],
    )
}

/// Predicate form of [`is_folder_named`].
pub open spec fn folder_pred(name: Seq<char>) -> spec_fn(Json) -> bool {
    |c: Json| is_folder_named(c, name)
}

/// Following the folder path `parts[p..]` down from `node` (descending into the
/// first folder of each name, or into a new one where none exists) never meets a
/// node without a children array; a move that would meet one is abandoned.
pub open spec fn place_ok(node: Json, parts: Seq<Seq<char>>, p: int) -> bool
    decreases parts.len() - p,
{
    if p >= parts.len() {
        true
    } else {
        match children_of(node) {
            None => false,
            Some(cs) => if any(cs, folder_pred(parts[p])) {
                place_ok(cs[first(cs, folder_pred(parts[p]))], parts, p + 1)
            } else {
                place_ok(new_folder(parts[p]), parts, p + 1)
            },
        }
    }
}

/// `node` with `item` appended to the children of the folder at the end of the
/// path `parts[p..]`, creating missing folders on the way. When the final folder
/// has no children array, the item is dropped.
pub open spec fn placed(node: Json, parts: Seq<Seq<char>>, p: int, item: Json) -> Json
    decreases parts.len() - p,
{
    if p >= parts.len() {
        match children_of(node) {
            Some(cs) => with_children(node, cs.push(item)),
            None => node,
        }
    } else {
        match children_of(node) {
            None => node,
            Some(cs) => if any(cs, folder_pred(parts[p])) {
                let k = first(cs, folder_pred(parts[p]));
                with_children(node, cs.update(k, placed(cs[k], parts, p + 1, item)))
            } else {
                with_children(node, cs.push(placed(new_folder(parts[p]), parts, p + 1, item)))
            },
        }
    }
}

/// A freshly created folder can always be descended into.
pub proof fn lemma_new_folder_place_ok(name: Seq<char>, parts: Seq<Seq<char>>, p: int)
    ensures
        place_ok(new_folder(name), parts, p),
    decreases parts.len() - p,
{
    let f = new_folder(name);
    let m = f->Object_0;
    assert(is_first(m, key_is("children"@), 0));
    lemma_first_unique(m, key_is("children"@), 0);
    assert(children_of(f) == Some(Seq::<Json>::empty()));
    if p < parts.len() {
        assert(!any(Seq::<Json>::empty(), folder_pred(parts[p])));
        lemma_new_folder_place_ok(parts[p], parts, p + 1);
    }
}

/// Builds [`new_folder`].
fn make_folder(name: &str) -> (r: JsonValue)
    ensures
        r@ == new_folder(name@),
{
    let children: Vec<JsonValue> = Vec::new();
    let members = vec![
        (owned("children"), JsonValue::Array(children)),
        (owned("name"), JsonValue::Str(owned(name))),
        (owned("type"), JsonValue::Str(owned("folder"))),
    ];
    proof {
        lemma_array_model(children);
        assert(items_model(children@) =~= Seq::<Json>::empty());
        crate::json::lemma_object_model(members);
        assert(crate::json::members_model(members@) =~= new_folder(name@)->Object_0);
    }
    JsonValue::Object(members)
}

/// The first child that is a folder named `name`, if any.
fn first_folder_named(items: &Vec<JsonValue>, name: &str) -> (r: Option<usize>)
    ensures
        r matches Some(k) ==> is_first(items_model(items@), folder_pred(name@), k as int),
        r is None ==> !any(items_model(items@), folder_pred(name@)),
{
    let ghost cs = items_model(items@);
    let mut i: usize = 0;
    while i < items.len()
        invariant
            cs == items_model(items@),
            i <= items@.len(),
            forall|j: int| 0 <= j < i ==> !folder_pred(name@)(#[trigger] cs[j]),
        decreases items.len() - i,
    {
        if crate::json::field_is(&items[i], "type", "folder") && crate::json::field_is(
            &items[i],
            "name",
            name,
        ) {
            return Some(i);
        }
        i = i + 1;
    }
    None
}

/// Whether the path `parts[p..]` can be followed from `node` (see [`place_ok`]).
fn can_place(node: &JsonValue, parts: &Vec<String>, p: usize) -> (r: bool)
    requires
        p <= parts@.len(),
    ensures
        r == place_ok(node@, strings_model(parts@), p as int),
    decreases parts@.len() - p,
{
    let ghost ps = strings_model(parts@);
    if p >= parts.len() {
        return true;
    }
    match crate::json::get(node, "children") {
        Some(JsonValue::Array(items)) => {
            proof {
                lemma_array_model(*items);
            }
            let ghost cs = items_model(items@);
            match first_folder_named(items, parts[p].as_str()) {
                Some(k) => {
                    proof {
                        lemma_first_unique(cs, folder_pred(ps[p as int]), k as int);
                    }
                    can_place(&items[k], parts, p + 1)
                },
                None => {
                    proof {
                        lemma_new_folder_place_ok(ps[p as int], ps, p + 1);
                    }
                    true
                },
            }
        },
        _ => false,
    }
}

/// Appends `item` inside the folder at the end of `parts[p..]` (see [`placed`]).
fn place_in_folder(node: &mut JsonValue, parts: &Vec<String>, p: usize, item: JsonValue)
    requires
        p <= parts@.len(),
        place_ok(old(node)@, strings_model(parts@), p as int),
    ensures
        final(node)@ == placed(old(node)@, strings_model(parts@), p as int, item@),
    decreases parts@.len() - p,
{
    let ghost v = node@;
    let ghost ps = strings_model(parts@);
    let ghost it = item@;
    let taken = take_children(node);
    match taken {
        Some(mut items) => {
            let ghost cs = items_model(items@);
            if p >= parts.len() {
                items.push(item);
                assert(items_model(items@) =~= cs.push(it));
                restore_children(node, items, Ghost(v));
                return;
            }
            let name = parts[p].as_str();
            match first_folder_named(&items, name) {
                Some(i) => {
                    proof {
                        lemma_first_unique(cs, folder_pred(ps[p as int]), i as int);
                    }
                    place_in_folder(&mut items[i], parts, p + 1, item);
                    assert(items_model(items@) =~= cs.update(
                        i as int,
                        placed(cs[i as int], ps, p + 1, it),
                    ));
                },
                None => {
                    let mut folder = make_folder(name);
                    proof {
                        lemma_new_folder_place_ok(ps[p as int], ps, p + 1);
                    }
                    place_in_folder(&mut folder, parts, p + 1, item);
                    items.push(folder);
                    assert(items_model(items@) =~= cs.push(
                        placed(new_folder(ps[p as int]), ps, p + 1, it),
                    ));
                },
            }
            restore_children(node, items, Ghost(v));
        },
        None => {},
    }
}

/// The take-out search succeeds in some root folder from the `i`-th on.
pub open spec fn roots_capture(roots: Json, i: int, url: Seq<char>) -> bool
    decreases 3 - i,
{
    if 0 <= i < 3 {
        match obj_get(roots, root_keys()[i]) {
            Some(r) => captures(r, url) || roots_capture(roots, i + 1, url),
            None => roots_capture(roots, i + 1, url),
        }
    } else {
        false
    }
}

/// The roots after the take-out search, which stops at the first root where it succeeds.
pub open spec fn roots_after_capture(roots: Json, i: int, url: Seq<char>) -> Json
    decreases 3 - i,
{
    if 0 <= i < 3 {
        match obj_get(roots, root_keys()[i]) {
            Some(r) => if captures(r, url) {
                obj_set(roots, root_keys()[i], after_capture(r, url))
            } else {
                roots_after_capture(roots, i + 1, url)
            },
            None => roots_after_capture(roots, i + 1, url),
        }
    } else {
        roots
    }
}

/// The bookmark that the take-out search over the roots removes.
pub open spec fn roots_captured(roots: Json, i: int, url: Seq<char>) -> Json
    decreases 3 - i,
{
    if 0 <= i < 3 {
        match obj_get(roots, root_keys()[i]) {
            Some(r) => if captures(r, url) {
                captured(r, url)
            } else {
                roots_captured(roots, i + 1, url)
            },
            None => roots_captured(roots, i + 1, url),
        }
    } else {
        Json::Null
    }
}

/// The root under key `k` is named `name`.
pub open spec fn root_named_pred(roots: Json, name: Seq<char>) -> spec_fn(Seq<char>) -> bool {
    |k: Seq<char>| obj_get(roots, k) matches Some(r) && field_str(r, "name"@) == Some(name)
}

/// The root folder a folder path leads into, and where the rest of the path
/// starts: a first part that is a root key selects that root; otherwise the first
/// root whose name is the first part; otherwise the path is taken whole under
/// `bookmark_bar`. `None` when the selected root is missing.
pub open spec fn target_root(roots: Json, parts: Seq<Seq<char>>) -> Option<(Seq<char>, int)> {
    if root_keys().contains(parts[0]) {
        if obj_get(roots, parts[0]) is Some {
            Some((parts[0], 1))
        } else {
            None
        }
    } else if any(root_keys(), root_named_pred(roots, parts[0])) {
        Some((root_keys()[first(root_keys(), root_named_pred(roots, parts[0]))], 1))
    } else if obj_get(roots, "bookmark_bar"@) is Some {
        Some(("bookmark_bar"@, 0))
    } else {
        None
    }
}

/// The root that [`target_root`] selects exists.
pub proof fn lemma_target_present(roots: Json, parts: Seq<Seq<char>>)
    requires
        parts.len() > 0,
    ensures
        target_root(roots, parts) matches Some((k, p)) ==> obj_get(roots, k) is Some,
{
    if !root_keys().contains(parts[0]) && any(root_keys(), root_named_pred(roots, parts[0])) {
        lemma_first_exists(root_keys(), root_named_pred(roots, parts[0]));
    }
}

/// How moving a bookmark ended.
#[derive(Debug, PartialEq, Eq)]
pub enum MoveOutcome {
    /// No bookmark for the URL was found; the document is unchanged and not saved.
    NotFound,
    /// The folder path has no parts; the bookmark was taken out but the
    /// document is not saved.
    NoFolder,
    /// The bookmark now sits in the target folder; the document is to be saved.
    Moved,
    /// The selected root folder does not exist; the bookmark was taken out, the
    /// move is abandoned and the document is not to be saved.
    MissingRoot,
    /// A folder on the path has no children array; the bookmark was taken out,
    /// the move is abandoned and the document is not to be saved.
    MissingChildren,
}

/// `move_bookmark_to_folder` on a document: the outcome and the resulting document.
pub open spec fn moved_document(doc: Json, url: Seq<char>, folder: Seq<char>) -> (MoveOutcome, Json) {
    match obj_get(doc, "roots"@) {
        None => (MoveOutcome::NotFound, doc),
        Some(roots) => if !roots_capture(roots, 0, url) {
            (MoveOutcome::NotFound, doc)
        } else {
            let roots1 = roots_after_capture(roots, 0, url);
            let item = roots_captured(roots, 0, url);
            let doc1 = obj_set(doc, "roots"@, roots1);
            let parts = path_parts(folder);
            if parts.len() == 0 {
                (MoveOutcome::NoFolder, doc1)
            } else {
                match target_root(roots1, parts) {
                    None => (MoveOutcome::MissingRoot, doc1),
                    Some((key, p)) => {
                        let r = obj_get(roots1, key)->Some_0;
                        if place_ok(r, parts, p) {
                            (
                                MoveOutcome::Moved,
                                obj_set(doc, "roots"@, obj_set(roots1, key, placed(r, parts, p, item))),
                            )
                        } else {
                            (MoveOutcome::MissingChildren, doc1)
                        }
                    },
                }
            }
        },
    }
}

/// Runs the take-out search over the roots.
fn capture_in_roots(roots: &mut JsonValue, url: &str) -> (r: Option<JsonValue>)
    ensures
        r is Some == roots_capture(old(roots)@, 0, url@),
        r matches Some(x) ==> x@ == roots_captured(old(roots)@, 0, url@),
        r is Some ==> final(roots)@ == roots_after_capture(old(roots)@, 0, url@),
        r is None ==> final(roots)@ == old(roots)@,
{
    let ghost r0 = roots@;
    let m = Matcher::Bookmark(owned(url));
    let mut i: usize = 0;
    while i < 3
        invariant
            m == Matcher::Bookmark(m->Bookmark_0),
            m->Bookmark_0@ == url@,
            r0 == old(roots)@,
            roots@ == r0,
            roots_capture(r0, 0, url@) == roots_capture(r0, i as int, url@),
            roots_captured(r0, 0, url@) == roots_captured(r0, i as int, url@),
            roots_after_capture(r0, 0, url@) == roots_after_capture(r0, i as int, url@),
            i <= 3,
        decreases 3 - i,
    {
        let key = root_key(i);
        match take_member(roots, key) {
            Some(mut root) => {
                let ghost rv = root@;
                let hit = capture_in_node(&mut root, &m);
                set_member(roots, key, root);
                proof {
                    lemma_set_twice(r0, key@, Json::Null, root@);
                }
                if hit.is_some() {
                    return hit;
                }
                proof {
                    lemma_after_capture_unchanged(rv, url@);
                    lemma_set_same(r0, key@, rv);
                }
            },
            None => {},
        }
        i = i + 1;
    }
    None
}

/// Whether `s` is one of the root keys.
fn is_root_key(s: &str) -> (r: bool)
    ensures
        r == root_keys().contains(s@),
{
    let mut i: usize = 0;
    while i < 3
        invariant
            i <= 3,
            forall|j: int| 0 <= j < i ==> root_keys()[j] != s@,
        decreases 3 - i,
    {
        if crate::text::str_eq(root_key(i), s) {
            assert(root_keys()[i as int] == s@);
            return true;
        }
        i = i + 1;
    }
    false
}

/// Selects the root a folder path leads into (see [`target_root`]).
fn choose_target(roots: &JsonValue, first_part: &str, Ghost(parts): Ghost<Seq<Seq<char>>>) -> (r: Option<(&'static str, usize)>)
    requires
        parts.len() > 0,
        parts[0] == first_part@,
    ensures
        r matches Some((k, p)) ==> target_root(roots@, parts) == Some((k@, p as int)),
        r is None ==> target_root(roots@, parts) is None,
{
    if is_root_key(first_part) {
        let mut i: usize = 0;
        while i < 3
            invariant
                i <= 3,
                forall|j: int| 0 <= j < i ==> root_keys()[j] != first_part@,
                root_keys().contains(first_part@),
                parts.len() > 0,
                parts[0] == first_part@,
            decreases 3 - i,
        {
            let key = root_key(i);
            if crate::text::str_eq(key, first_part) {
                if crate::json::get(roots, key).is_some() {
                    return Some((key, 1));
                } else {
                    return None;
                }
            }
            i = i + 1;
        }
        proof {
            let j = choose|j: int| 0 <= j < root_keys().len() && root_keys()[j] == first_part@;
            assert(root_keys()[j] != first_part@);
        }
        return None;
    }
    let mut i: usize = 0;
    while i < 3
        invariant
            i <= 3,
            forall|j: int| 0 <= j < i ==> !root_named_pred(roots@, parts[0])(#[trigger] root_keys()[j]),
            !root_keys().contains(parts[0]),
            parts.len() > 0,
            parts[0] == first_part@,
        decreases 3 - i,
    {
        let key = root_key(i);
        let named = match crate::json::get(roots, key) {
            Some(r) => crate::json::field_is(r, "name", first_part),
            None => false,
        };
        if named {
            proof {
                assert(is_first(root_keys(), root_named_pred(roots@, parts[0]), i as int));
                lemma_first_unique(root_keys(), root_named_pred(roots@, parts[0]), i as int);
            }
            return Some((key, 1));
        }
        i = i + 1;
    }
    proof {
        assert(root_keys().len() == 3);
    }
    if crate::json::get(roots, "bookmark_bar").is_some() {
        Some(("bookmark_bar", 0))
    } else {
        None
    }
}

/// `move_bookmark_to_folder` on a parsed document: takes the first bookmark for
/// `url` out of the roots and appends it inside the folder path `new_folder` (see
/// [`moved_document`]). Only when the outcome is [`MoveOutcome::Moved`] is the
/// document to be saved.
pub fn move_bookmark(doc: &mut JsonValue, url: &str, new_folder: &str) -> (r: MoveOutcome)
    ensures
        r == moved_document(old(doc)@, url@, new_folder@).0,
        final(doc)@ == moved_document(old(doc)@, url@, new_folder@).1,
{
    let ghost orig = doc@;
    let mut roots = match take_member(doc, "roots") {
        Some(roots) => roots,
        None => return MoveOutcome::NotFound,
    };
    let ghost r0 = roots@;
    let captured = capture_in_roots(&mut roots, url);
    let item = match captured {
        Some(x) => x,
        None => {
            set_member(doc, "roots", roots);
            proof {
                lemma_set_twice(orig, "roots"@, Json::Null, r0);
                lemma_set_same(orig, "roots"@, r0);
            }
            return MoveOutcome::NotFound;
        },
    };
    let ghost roots1 = roots@;
    let parts = crate::text::split_path(new_folder);
    let ghost ps = strings_model(parts@);
    if parts.len() == 0 {
        set_member(doc, "roots", roots);
        proof {
            lemma_set_twice(orig, "roots"@, Json::Null, roots1);
        }
        return MoveOutcome::NoFolder;
    }
    proof {
        assert(ps[0] == parts@[0]@);
    }
    let target = choose_target(&roots, parts[0].as_str(), Ghost(ps));
    let (key, p) = match target {
        Some(t) => t,
        None => {
            set_member(doc, "roots", roots);
            proof {
                lemma_set_twice(orig, "roots"@, Json::Null, roots1);
            }
            return MoveOutcome::MissingRoot;
        },
    };
    let mut root = match take_member(&mut roots, key) {
        Some(root) => root,
        None => {
            proof {
                lemma_target_present(roots1, ps);
            }
            return MoveOutcome::MissingRoot;
        },
    };
    let ghost rv = root@;
    if !can_place(&root, &parts, p) {
        set_member(&mut roots, key, root);
        proof {
            lemma_target_present(roots1, ps);
            lemma_set_twice(roots1, key@, Json::Null, rv);
            lemma_set_same(roots1, key@, rv);
        }
        set_member(doc, "roots", roots);
        proof {
            lemma_set_twice(orig, "roots"@, Json::Null, roots1);
        }
        return MoveOutcome::MissingChildren;
    }
    place_in_folder(&mut root, &parts, p, item);
    set_member(&mut roots, key, root);
    proof {
        lemma_set_twice(roots1, key@, Json::Null, root@);
    }
    set_member(doc, "roots", roots);
    proof {
        lemma_set_twice(orig, "roots"@, Json::Null, roots@);
    }
    MoveOutcome::Moved
}

/// An edit that finds nothing to act on leaves the document as it was: deleting
/// the bookmarks for a URL that no folder holds, removing an empty folder that is
/// not there, moving a bookmark that is not there.
pub proof fn law_no_match_no_change(doc: Json, url: Seq<char>, parent: Seq<char>, name: Seq<char>, folder: Seq<char>)
    ensures
        !document_deletes_url(doc, url) ==> deleted_document(doc, url) == doc,
        !document_removes_folder(doc, parent, name) ==> empty_folder_deleted(doc, parent, name) == doc,
        moved_document(doc, url, folder).0 == MoveOutcome::NotFound ==> moved_document(doc, url, folder).1 == doc,
{
}


// ---------------------------------------------------------------------------
// Where a moved bookmark lands

/// Following the folder path `parts[p..]` down from `node` as the move does
/// ends in a folder that has a children array, so the moved bookmark is kept.
pub open spec fn path_reaches(node: Json, parts: Seq<Seq<char>>, p: int) -> bool
    decreases parts.len() - p,
{
    if p >= parts.len() {
        children_of(node) is Some
    } else {
        match children_of(node) {
            None => false,
            Some(cs) => if any(cs, folder_pred(parts[p])) {
                path_reaches(cs[first(cs, folder_pred(parts[p]))], parts, p + 1)
            } else {
                path_reaches(new_folder(parts[p]), parts, p + 1)
            },
        }
    }
}

/// The folder a move of the bookmark for `url` into `folder` puts it in has a
/// children array.
pub open spec fn move_lands(doc: Json, url: Seq<char>, folder: Seq<char>) -> bool {
    match obj_get(doc, "roots"@) {
        Some(roots) => {
            let roots1 = roots_after_capture(roots, 0, url);
            let parts = path_parts(folder);
            parts.len() > 0 && match target_root(roots1, parts) {
                Some((key, p)) => path_reaches(obj_get(roots1, key)->Some_0, parts, p),
                None => false,
            }
        },
        None => false,
    }
}

/// Some element of `cs[i..]` holding a bookmark for `url` makes `cs[i..]` hold one.
proof fn lemma_holds_from_at(cs: Seq<Json>, i: int, j: int, url: Seq<char>)
    requires
        0 <= i <= j < cs.len(),
        holds_url(cs[j], url),
    ensures
        holds_url_from(cs, i, url),
    decreases j - i,
{
    if i < j {
        lemma_holds_from_at(cs, i + 1, j, url);
    }
}

/// A node whose new children hold a bookmark for `url` holds one.
proof fn lemma_with_children_holds(v: Json, cs: Seq<Json>, j: int, url: Seq<char>)
    requires
        v is Object,
        0 <= j < cs.len(),
        holds_url(cs[j], url),
    ensures
        holds_url(with_children(v, cs), url),
{
    lemma_set_then_get(v, "children"@, Json::Array(cs));
    lemma_holds_from_at(cs, 0, j, url);
}

/// The bookmark the take-out search removes is a bookmark for `url`.
proof fn lemma_captured_is_url(v: Json, url: Seq<char>)
    requires
        captures(v, url),
    ensures
        is_url_node(captured(v, url), url),
    decreases v, 0int,
{
    lemma_children_decrease(v);
    let cs = children_of(v)->Some_0;
    if any(cs, url_node_pred(url)) {
        lemma_first_exists(cs, url_node_pred(url));
    } else {
        lemma_captured_from_is_url(cs, 0, url);
    }
}

/// The bookmark taken out of `cs[i..]` is a bookmark for `url`.
proof fn lemma_captured_from_is_url(cs: Seq<Json>, i: int, url: Seq<char>)
    requires
        captures_from(cs, i, url),
    ensures
        is_url_node(captured_from(cs, i, url), url),
    decreases cs, cs.len() - i,
{
    if captures(cs[i], url) {
        lemma_captured_is_url(cs[i], url);
    } else {
        lemma_captured_from_is_url(cs, i + 1, url);
    }
}

/// The bookmark taken out of the roots is a bookmark for `url`.
proof fn lemma_roots_captured_is_url(roots: Json, i: int, url: Seq<char>)
    requires
        0 <= i,
        roots_capture(roots, i, url),
    ensures
        is_url_node(roots_captured(roots, i, url), url),
    decreases 3 - i,
{
    match obj_get(roots, root_keys()[i]) {
        Some(r) => if captures(r, url) {
            lemma_captured_is_url(r, url);
        } else {
            lemma_roots_captured_is_url(roots, i + 1, url);
        },
        None => lemma_roots_captured_is_url(roots, i + 1, url),
    }
}

/// Placing a bookmark for `url` where the path reaches a folder with children
/// leaves a bookmark for `url` in the tree.
proof fn lemma_placed_holds(node: Json, parts: Seq<Seq<char>>, p: int, item: Json, url: Seq<char>)
    requires
        path_reaches(node, parts, p),
        is_url_node(item, url),
    ensures
        holds_url(placed(node, parts, p, item), url),
    decreases parts.len() - p,
{
    let cs = children_of(node)->Some_0;
    if p >= parts.len() {
        assert(cs.push(item)[cs.len() as int] == item);
        lemma_with_children_holds(node, cs.push(item), cs.len() as int, url);
    } else if any(cs, folder_pred(parts[p])) {
        let k = first(cs, folder_pred(parts[p]));
        lemma_first_exists(cs, folder_pred(parts[p]));
        lemma_placed_holds(cs[k], parts, p + 1, item, url);
        let cs2 = cs.update(k, placed(cs[k], parts, p + 1, item));
        lemma_with_children_holds(node, cs2, k, url);
    } else {
        lemma_placed_holds(new_folder(parts[p]), parts, p + 1, item, url);
        let cs2 = cs.push(placed(new_folder(parts[p]), parts, p + 1, item));
        assert(cs2[cs.len() as int] == placed(new_folder(parts[p]), parts, p + 1, item));
        lemma_with_children_holds(node, cs2, cs.len() as int, url);
    }
}

/// A root key names one of the three roots.
proof fn lemma_root_key_index(key: Seq<char>) -> (i: int)
    requires
        root_keys().contains(key),
    ensures
        0 <= i < 3,
        root_keys()[i] == key,
{
    choose|i: int| 0 <= i < 3 && root_keys()[i] == key
}

/// A moved bookmark can be found again: when the move ends with the bookmark in
/// its new folder and that folder has a children array, the document holds a
/// bookmark for the URL.
pub proof fn law_move_then_find(doc: Json, url: Seq<char>, folder: Seq<char>)
    requires
        moved_document(doc, url, folder).0 == MoveOutcome::Moved,
        move_lands(doc, url, folder),
    ensures
        document_holds_url(moved_document(doc, url, folder).1, url),
{
    let roots = obj_get(doc, "roots"@)->Some_0;
    let roots1 = roots_after_capture(roots, 0, url);
    let item = roots_captured(roots, 0, url);
    let parts = path_parts(folder);
    let (key, p) = target_root(roots1, parts)->Some_0;
    lemma_target_present(roots1, parts);
    let r = obj_get(roots1, key)->Some_0;
    lemma_roots_captured_is_url(roots, 0, url);
    lemma_placed_holds(r, parts, p, item, url);
    let new_roots = obj_set(roots1, key, placed(r, parts, p, item));
    lemma_get_object_json(roots1, key);
    lemma_set_then_get(roots1, key, placed(r, parts, p, item));
    let i: int = if root_keys().contains(parts[0]) {
        lemma_root_key_index(key)
    } else if any(root_keys(), root_named_pred(roots1, parts[0])) {
        lemma_first_exists(root_keys(), root_named_pred(roots1, parts[0]));
        first(root_keys(), root_named_pred(roots1, parts[0]))
    } else {
        0
    };
    assert(root_keys()[i] == key);
    assert(roots_hold_url(new_roots, i, url));
    lemma_roots_hold_from_earlier(new_roots, 0, i, url);
    lemma_get_object_json(doc, "roots"@);
    lemma_set_then_get(doc, "roots"@, new_roots);
}

/// Only objects hold members.
proof fn lemma_get_object_json(v: Json, key: Seq<char>)
    ensures
        obj_get(v, key) is Some ==> v is Object,
{
}

// ---------------------------------------------------------------------------
// Deleting adds nothing

/// A position of `cs[i..]` whose subtree holds a bookmark for `url`.
proof fn lemma_holds_from_witness(cs: Seq<Json>, i: int, url: Seq<char>) -> (j: int)
    requires
        holds_url_from(cs, i, url),
    ensures
        0 <= i <= j < cs.len(),
        holds_url(cs[j], url),
    decreases cs.len() - i,
{
    if holds_url(cs[i], url) {
        i
    } else {
        lemma_holds_from_witness(cs, i + 1, url)
    }
}

/// Each element kept by a filter is an element of the filtered prefix.
proof fn lemma_kept_origin<A>(s: Seq<A>, drop: spec_fn(A) -> bool, n: int, k: int) -> (j: int)
    requires
        0 <= n <= s.len(),
        0 <= k < kept(s, drop, n).len(),
    ensures
        0 <= j < n,
        s[j] == kept(s, drop, n)[k],
    decreases n,
{
    lemma_kept_len(s, drop, n - 1);
    let r = kept(s, drop, n - 1);
    if k < r.len() {
        lemma_kept_origin(s, drop, n - 1, k)
    } else {
        n - 1
    }
}

/// The deletion search in `cs[i..]` replaces at most one element, by its
/// deleted form.
proof fn lemma_deleted_from_shape(cs: Seq<Json>, i: int, url: Seq<char>)
    requires
        0 <= i,
    ensures
        deleted_from(cs, i, url).len() == cs.len(),
        forall|j: int|
            0 <= j < cs.len() ==> #[trigger] deleted_from(cs, i, url)[j] == cs[j] || deleted_from(cs, i, url)[j]
                == deleted(cs[j], url),
    decreases cs.len() - i,
{
    if i < cs.len() && !deletes_url(cs[i], url) {
        lemma_deleted_from_shape(cs, i + 1, url);
    }
}

/// The fields of a node other than its children survive replacing the children.
proof fn lemma_with_children_fields(v: Json, cs: Seq<Json>, u: Seq<char>)
    requires
        v is Object,
    ensures
        is_url_node(with_children(v, cs), u) == is_url_node(v, u),
{
    reveal_strlit("children");
    reveal_strlit("type");
    reveal_strlit("url");
    assert("children"@[0] != "type"@[0]);
    assert("children"@[0] != "url"@[0]);
    lemma_set_other(v, "children"@, Json::Array(cs), "type"@);
    lemma_set_other(v, "children"@, Json::Array(cs), "url"@);
}

/// Every bookmark a node holds after the deletion search it held before.
proof fn lemma_deleted_keeps(v: Json, url: Seq<char>, u: Seq<char>)
    requires
        holds_url(deleted(v, url), u),
    ensures
        holds_url(v, u),
    decreases v, 0int,
{
    lemma_children_decrease(v);
    match children_of(v) {
        Some(cs) => {
            let w = deleted(v, url);
            if w != v {
                let cs2 = if any(cs, url_node_pred(url)) {
                    without(cs, url_node_pred(url))
                } else {
                    deleted_from(cs, 0, url)
                };
                assert(w == with_children(v, cs2));
                lemma_with_children_fields(v, cs2, u);
                lemma_set_then_get(v, "children"@, Json::Array(cs2));
                if !is_url_node(w, u) {
                    let j = lemma_holds_from_witness(cs2, 0, u);
                    if any(cs, url_node_pred(url)) {
                        let m = lemma_kept_origin(cs, url_node_pred(url), cs.len() as int, j);
                        lemma_holds_from_at(cs, 0, m, u);
                    } else {
                        lemma_deleted_from_shape(cs, 0, url);
                        if cs2[j] != cs[j] {
                            lemma_deleted_keeps(cs[j], url, u);
                        }
                        lemma_holds_from_at(cs, 0, j, u);
                    }
                }
            }
        },
        None => {},
    }
}

/// The deletion over the roots sets at most one root to its deleted form.
proof fn lemma_deleted_roots_shape(roots: Json, i: int, url: Seq<char>) -> (k: int)
    requires
        0 <= i,
    ensures
        deleted_roots(roots, i, url) == roots || (i <= k < 3 && obj_get(roots, root_keys()[k]) is Some
            && deleted_roots(roots, i, url) == obj_set(
            roots,
            root_keys()[k],
            deleted(obj_get(roots, root_keys()[k])->Some_0, url),
        )),
    decreases 3 - i,
{
    if i < 3 {
        match obj_get(roots, root_keys()[i]) {
            Some(r) => if deletes_url(r, url) {
                i
            } else {
                lemma_deleted_roots_shape(roots, i + 1, url)
            },
            None => lemma_deleted_roots_shape(roots, i + 1, url),
        }
    } else {
        i
    }
}

/// Roots that agree on every root key from the `i`-th on agree on holding `u`.
proof fn lemma_roots_hold_same(a: Json, b: Json, i: int, u: Seq<char>)
    requires
        forall|j: int| i <= j < 3 ==> obj_get(a, #[trigger] root_keys()[j]) == obj_get(b, root_keys()[j]),
    ensures
        roots_hold_url(a, i, u) == roots_hold_url(b, i, u),
    decreases 3 - i,
{
    if 0 <= i < 3 {
        lemma_roots_hold_same(a, b, i + 1, u);
    }
}

/// Deleting adds no bookmark: every URL the document holds a bookmark for after
/// deleting the bookmarks for `url`, it held one for before.
pub proof fn law_delete_adds_nothing(doc: Json, url: Seq<char>, u: Seq<char>)
    requires
        document_holds_url(deleted_document(doc, url), u),
    ensures
        document_holds_url(doc, u),
{
    let roots = obj_get(doc, "roots"@)->Some_0;
    if roots_delete_url(roots, 0, url) {
        let r2 = deleted_roots(roots, 0, url);
        lemma_get_object_json(doc, "roots"@);
        lemma_set_then_get(doc, "roots"@, r2);
        let k = lemma_deleted_roots_shape(roots, 0, url);
        if r2 != roots {
            let key = root_keys()[k];
            let r = obj_get(roots, key)->Some_0;
            lemma_get_object_json(roots, key);
            reveal_strlit("bookmark_bar");
            reveal_strlit("other");
            reveal_strlit("synced");
            assert forall|j: int| 0 <= j < 3 && j != k implies obj_get(r2, #[trigger] root_keys()[j]) == obj_get(
                roots,
                root_keys()[j],
            ) by {
                assert(root_keys()[j][0] != key[0] || root_keys()[j].len() != key.len());
                lemma_set_other(roots, key, deleted(r, url), root_keys()[j]);
            }
            lemma_set_then_get(roots, key, deleted(r, url));
            if holds_url(deleted(r, url), u) {
                lemma_deleted_keeps(r, url, u);
            }
            let mixed = obj_set(r2, key, r);
            lemma_set_then_get(r2, key, r);
            assert forall|j: int| 0 <= j < 3 implies obj_get(mixed, #[trigger] root_keys()[j]) == obj_get(
                roots,
                root_keys()[j],
            ) by {
                if j != k {
                    assert(root_keys()[j][0] != key[0] || root_keys()[j].len() != key.len());
                    lemma_set_other(r2, key, r, root_keys()[j]);
                }
            }
            lemma_roots_hold_same(mixed, roots, 0, u);
            lemma_roots_keep_at(r2, mixed, k, u);
        }
    }
}

/// Replacing the root at key `k` by one that holds every bookmark the old one
/// held keeps every bookmark the roots held.
proof fn lemma_roots_keep_at(a: Json, b: Json, k: int, u: Seq<char>)
    requires
        0 <= k < 3,
        forall|j: int| 0 <= j < 3 && j != k ==> obj_get(a, #[trigger] root_keys()[j]) == obj_get(b, root_keys()[j]),
        obj_get(a, root_keys()[k]) is Some,
        obj_get(b, root_keys()[k]) is Some,
        holds_url(obj_get(a, root_keys()[k])->Some_0, u) ==> holds_url(obj_get(b, root_keys()[k])->Some_0, u),
        roots_hold_url(a, 0, u),
    ensures
        roots_hold_url(b, 0, u),
{
    lemma_roots_keep_from(a, b, 0, k, u);
}

proof fn lemma_roots_keep_from(a: Json, b: Json, i: int, k: int, u: Seq<char>)
    requires
        0 <= i,
        0 <= k < 3,
        forall|j: int| 0 <= j < 3 && j != k ==> obj_get(a, #[trigger] root_keys()[j]) == obj_get(b, root_keys()[j]),
        obj_get(a, root_keys()[k]) is Some,
        obj_get(b, root_keys()[k]) is Some,
        holds_url(obj_get(a, root_keys()[k])->Some_0, u) ==> holds_url(obj_get(b, root_keys()[k])->Some_0, u),
        roots_hold_url(a, i, u),
    ensures
        roots_hold_url(b, i, u),
    decreases 3 - i,
{
    if i < 3 {
        if i != k {
            assert(obj_get(a, root_keys()[i]) == obj_get(b, root_keys()[i]));
        }
        match obj_get(a, root_keys()[i]) {
            Some(r) => if !holds_url(r, u) {
                lemma_roots_keep_from(a, b, i + 1, k, u);
            },
            None => lemma_roots_keep_from(a, b, i + 1, k, u),
        }
    }
}

// ---------------------------------------------------------------------------
// Renaming back

/// The bookmark the rename search for `url` reaches in `v` (see [`renamed`]).
pub open spec fn found(v: Json, url: Seq<char>) -> Json
    decreases v, 0int,
{
    proof {
        lemma_children_decrease(v);
    }
    if is_url_node(v, url) {
        v
    } else {
        match children_of(v) {
            Some(cs) => found_from(cs, 0, url),
            None => Json::Null,
        }
    }
}

/// The bookmark the rename search for `url` reaches in `cs[i..]`.
pub open spec fn found_from(cs: Seq<Json>, i: int, url: Seq<char>) -> Json
    decreases cs, cs.len() - i,
{
    if 0 <= i < cs.len() {
        if holds_url(cs[i], url) {
            found(cs[i], url)
        } else {
            found_from(cs, i + 1, url)
        }
    } else {
        Json::Null
    }
}

/// The bookmark the rename search for `url` reaches in the roots from the `i`-th on.
pub open spec fn roots_found(roots: Json, i: int, url: Seq<char>) -> Json
    decreases 3 - i,
{
    if 0 <= i < 3 {
        match obj_get(roots, root_keys()[i]) {
            Some(r) => if holds_url(r, url) {
                found(r, url)
            } else {
                roots_found(roots, i + 1, url)
            },
            None => roots_found(roots, i + 1, url),
        }
    } else {
        Json::Null
    }
}

/// The bookmark a rename of `url` in the document changes.
pub open spec fn document_found(doc: Json, url: Seq<char>) -> Json {
    match obj_get(doc, "roots"@) {
        Some(roots) => roots_found(roots, 0, url),
        None => Json::Null,
    }
}

/// Setting a bookmark's name and URL and then setting them back to what they
/// were restores it.
proof fn lemma_fields_restored(v: Json, n0: Seq<char>, u0: Seq<char>, n1: Seq<char>, u1: Seq<char>)
    requires
        obj_get(v, "name"@) == Some(Json::Str(n0)),
        obj_get(v, "url"@) == Some(Json::Str(u0)),
    ensures
        obj_set(
            obj_set(obj_set(obj_set(v, "name"@, Json::Str(n1)), "url"@, Json::Str(u1)), "name"@, Json::Str(n0)),
            "url"@,
            Json::Str(u0),
        ) == v,
{
    reveal_strlit("url");
    reveal_strlit("name");
    assert("name"@[0] != "url"@[0]);
    lemma_get_object_json(v, "name"@);
    let x = obj_set(v, "name"@, Json::Str(n1));
    lemma_set_then_get(v, "name"@, Json::Str(n1));
    lemma_set_other(v, "name"@, Json::Str(n1), "url"@);
    crate::json::lemma_set_commute(x, "url"@, Json::Str(u1), "name"@, Json::Str(n0));
    lemma_set_twice(v, "name"@, Json::Str(n1), Json::Str(n0));
    lemma_set_same(v, "name"@, Json::Str(n0));
    lemma_set_twice(v, "url"@, Json::Str(u1), Json::Str(u0));
    lemma_set_same(v, "url"@, Json::Str(u0));
}

/// Renaming within `cs[k..]` leaves `cs[..k]` as it was.
proof fn lemma_renamed_from_prefix(cs: Seq<Json>, k: int, url: Seq<char>, name: Seq<char>, new_url: Seq<char>)
    requires
        0 <= k,
    ensures
        renamed_from(cs, k, url, name, new_url).len() == cs.len(),
        forall|j: int| 0 <= j < k && j < cs.len() ==> #[trigger] renamed_from(cs, k, url, name, new_url)[j] == cs[j],
    decreases cs.len() - k,
{
    if k < cs.len() && !holds_url(cs[k], url) {
        lemma_renamed_from_prefix(cs, k + 1, url, name, new_url);
    }
}

/// Renaming the bookmark reached for `u0` to `u1` and then the one reached for
/// `u1` back restores the node, when no bookmark for `u1` was there before.
proof fn lemma_rename_back(v: Json, u0: Seq<char>, n0: Seq<char>, n1: Seq<char>, u1: Seq<char>)
    requires
        holds_url(v, u0),
        !holds_url(v, u1),
        field_str(found(v, u0), "name"@) == Some(n0),
    ensures
        renamed(renamed(v, u0, n1, u1), u1, n0, u0) == v,
    decreases v, 0int,
{
    lemma_children_decrease(v);
    lemma_renamed_holds(v, u0, n1, u1);
    if is_url_node(v, u0) {
        reveal_strlit("url");
        reveal_strlit("type");
        reveal_strlit("name");
        assert("name"@[0] != "type"@[0]);
        assert("url"@[0] != "type"@[0]);
        lemma_get_object_json(v, "url"@);
        let w1 = obj_set(v, "name"@, Json::Str(n1));
        lemma_set_then_get(v, "name"@, Json::Str(n1));
        lemma_set_other(v, "name"@, Json::Str(n1), "type"@);
        lemma_set_then_get(w1, "url"@, Json::Str(u1));
        lemma_set_other(w1, "url"@, Json::Str(u1), "type"@);
        assert(is_url_node(renamed(v, u0, n1, u1), u1));
        assert(obj_get(v, "url"@) == Some(Json::Str(u0)));
        assert(obj_get(v, "name"@) == Some(Json::Str(n0)));
        lemma_fields_restored(v, n0, u0, n1, u1);
    } else {
        let cs = children_of(v)->Some_0;
        let cs1 = renamed_from(cs, 0, u0, n1, u1);
        let w = with_children(v, cs1);
        lemma_get_object_json(v, "children"@);
        lemma_with_children_fields(v, cs1, u1);
        lemma_set_then_get(v, "children"@, Json::Array(cs1));
        lemma_rename_back_from(cs, 0, u0, n0, n1, u1);
        lemma_set_twice(v, "children"@, Json::Array(cs1), Json::Array(cs));
        lemma_set_same(v, "children"@, Json::Array(cs));
        assert(!is_url_node(w, u1));
        assert(holds_url_from(cs1, 0, u1));
        assert(renamed(w, u1, n0, u0) == with_children(w, renamed_from(cs1, 0, u1, n0, u0)));
    }
}

/// [`lemma_rename_back`] within `cs[i..]`.
proof fn lemma_rename_back_from(cs: Seq<Json>, i: int, u0: Seq<char>, n0: Seq<char>, n1: Seq<char>, u1: Seq<char>)
    requires
        0 <= i,
        holds_url_from(cs, i, u0),
        !holds_url_from(cs, i, u1),
        field_str(found_from(cs, i, u0), "name"@) == Some(n0),
    ensures
        renamed_from(renamed_from(cs, i, u0, n1, u1), i, u1, n0, u0) == cs,
    decreases cs, cs.len() - i,
{
    if holds_url(cs[i], u0) {
        lemma_rename_back(cs[i], u0, n0, n1, u1);
        lemma_renamed_holds(cs[i], u0, n1, u1);
        let c1 = cs.update(i, renamed(cs[i], u0, n1, u1));
        assert(c1.update(i, cs[i]) =~= cs);
    } else {
        lemma_rename_back_from(cs, i + 1, u0, n0, n1, u1);
        let c1 = renamed_from(cs, i + 1, u0, n1, u1);
        lemma_renamed_from_prefix(cs, i + 1, u0, n1, u1);
        assert(c1[i] == cs[i]);
    }
}

/// Renaming in the roots from the `i`-th on leaves the earlier roots as they were.
proof fn lemma_renamed_roots_keep(roots: Json, m: int, j: int, url: Seq<char>, name: Seq<char>, new_url: Seq<char>)
    requires
        0 <= j < m,
        j < 3,
    ensures
        obj_get(renamed_roots(roots, m, url, name, new_url), root_keys()[j]) == obj_get(roots, root_keys()[j]),
    decreases 3 - m,
{
    if m < 3 {
        match obj_get(roots, root_keys()[m]) {
            Some(r) => if holds_url(r, url) {
                reveal_strlit("bookmark_bar");
                reveal_strlit("other");
                reveal_strlit("synced");
                assert(root_keys()[j][0] != root_keys()[m][0]);
                lemma_get_object_json(roots, root_keys()[m]);
                lemma_set_other(roots, root_keys()[m], renamed(r, url, name, new_url), root_keys()[j]);
            } else {
                lemma_renamed_roots_keep(roots, m + 1, j, url, name, new_url);
            },
            None => lemma_renamed_roots_keep(roots, m + 1, j, url, name, new_url),
        }
    }
}

/// [`lemma_rename_back`] over the roots from the `i`-th on.
proof fn lemma_rename_back_roots(roots: Json, i: int, u0: Seq<char>, n0: Seq<char>, n1: Seq<char>, u1: Seq<char>)
    requires
        0 <= i,
        roots_hold_url(roots, i, u0),
        !roots_hold_url(roots, i, u1),
        field_str(roots_found(roots, i, u0), "name"@) == Some(n0),
    ensures
        renamed_roots(renamed_roots(roots, i, u0, n1, u1), i, u1, n0, u0) == roots,
    decreases 3 - i,
{
    let k = root_keys()[i];
    match obj_get(roots, k) {
        Some(r) => if holds_url(r, u0) {
            lemma_rename_back(r, u0, n0, n1, u1);
            lemma_renamed_holds(r, u0, n1, u1);
            lemma_get_object_json(roots, k);
            lemma_set_then_get(roots, k, renamed(r, u0, n1, u1));
            lemma_set_twice(roots, k, renamed(r, u0, n1, u1), r);
            lemma_set_same(roots, k, r);
        } else {
            lemma_rename_back_roots(roots, i + 1, u0, n0, n1, u1);
            lemma_renamed_roots_keep(roots, i + 1, i, u0, n1, u1);
        },
        None => {
            lemma_rename_back_roots(roots, i + 1, u0, n0, n1, u1);
            lemma_renamed_roots_keep(roots, i + 1, i, u0, n1, u1);
        },
    }
}

/// Renaming a bookmark from one URL to another and back restores the document:
/// when the document holds a bookmark for `u0`, named `n0` where the rename finds
/// it, and none for `u1`, renaming `u0` to (`n1`, `u1`) and then `u1` to
/// (`n0`, `u0`) gives the document back.
pub proof fn law_rename_there_and_back(doc: Json, u0: Seq<char>, n0: Seq<char>, n1: Seq<char>, u1: Seq<char>)
    requires
        document_holds_url(doc, u0),
        !document_holds_url(doc, u1),
        field_str(document_found(doc, u0), "name"@) == Some(n0),
    ensures
        renamed_document(renamed_document(doc, u0, n1, u1), u1, n0, u0) == doc,
{
    let roots = obj_get(doc, "roots"@)->Some_0;
    let r1 = renamed_roots(roots, 0, u0, n1, u1);
    lemma_renamed_roots_hold(roots, 0, u0, n1, u1);
    lemma_rename_back_roots(roots, 0, u0, n0, n1, u1);
    lemma_get_object_json(doc, "roots"@);
    lemma_set_then_get(doc, "roots"@, r1);
    lemma_set_twice(doc, "roots"@, r1, roots);
    lemma_set_same(doc, "roots"@, roots);
}

// ---------------------------------------------------------------------------
// Searches reach every level of the tree

/// Some bookmark for `url` sits somewhere below `v`: a child of `v` is one, or
/// holds one at any depth.
pub open spec fn holds_below(v: Json, url: Seq<char>) -> bool {
    match children_of(v) {
        Some(cs) => holds_url_from(cs, 0, url),
        None => false,
    }
}

/// The `j`-th root folder is present and holds a bookmark for `url` below it.
pub open spec fn root_holds_below(roots: Json, j: int, url: Seq<char>) -> bool {
    match obj_get(roots, root_keys()[j]) {
        Some(r) => holds_below(r, url),
        None => false,
    }
}

/// Some root folder of the document holds a bookmark for `url` below it.
pub open spec fn document_holds_below(doc: Json, url: Seq<char>) -> bool {
    match obj_get(doc, "roots"@) {
        Some(roots) => exists|j: int|
            0 <= j < 3 && #[trigger] root_holds_below(roots, j, url),
        None => false,
    }
}

proof fn lemma_below_deletes(v: Json, url: Seq<char>)
    requires
        holds_below(v, url),
    ensures
        deletes_url(v, url),
    decreases v, 0int,
{
    lemma_children_decrease(v);
    lemma_from_deletes(children_of(v)->Some_0, 0, url);
}

proof fn lemma_from_deletes(cs: Seq<Json>, i: int, url: Seq<char>)
    requires
        0 <= i,
        holds_url_from(cs, i, url),
    ensures
        any(cs, url_node_pred(url)) || deletes_url_from(cs, i, url),
    decreases cs, cs.len() - i,
{
    if holds_url(cs[i], url) {
        if is_url_node(cs[i], url) {
            assert(url_node_pred(url)(cs[i]));
        } else {
            lemma_below_deletes(cs[i], url);
        }
    } else {
        lemma_from_deletes(cs, i + 1, url);
    }
}

proof fn lemma_below_captures(v: Json, url: Seq<char>)
    requires
        holds_below(v, url),
    ensures
        captures(v, url),
    decreases v, 0int,
{
    lemma_children_decrease(v);
    lemma_from_captures(children_of(v)->Some_0, 0, url);
}

proof fn lemma_from_captures(cs: Seq<Json>, i: int, url: Seq<char>)
    requires
        0 <= i,
        holds_url_from(cs, i, url),
    ensures
        any(cs, url_node_pred(url)) || captures_from(cs, i, url),
    decreases cs, cs.len() - i,
{
    if holds_url(cs[i], url) {
        if is_url_node(cs[i], url) {
            assert(url_node_pred(url)(cs[i]));
        } else {
            lemma_below_captures(cs[i], url);
        }
    } else {
        lemma_from_captures(cs, i + 1, url);
    }
}

/// What the take-out search removes is a bookmark for `url`.
proof fn lemma_captured_is_bookmark(v: Json, url: Seq<char>)
    requires
        captures(v, url),
    ensures
        is_url_node(captured(v, url), url),
    decreases v, 0int,
{
    lemma_children_decrease(v);
    let cs = children_of(v)->Some_0;
    if any(cs, url_node_pred(url)) {
        lemma_first_exists(cs, url_node_pred(url));
    } else {
        lemma_captured_from_is_bookmark(cs, 0, url);
    }
}

proof fn lemma_captured_from_is_bookmark(cs: Seq<Json>, i: int, url: Seq<char>)
    requires
        0 <= i,
        captures_from(cs, i, url),
    ensures
        is_url_node(captured_from(cs, i, url), url),
    decreases cs, cs.len() - i,
{
    if captures(cs[i], url) {
        lemma_captured_is_bookmark(cs[i], url);
    } else {
        lemma_captured_from_is_bookmark(cs, i + 1, url);
    }
}

proof fn lemma_roots_delete(roots: Json, k: int, j: int, url: Seq<char>)
    requires
        0 <= k <= j < 3,
        root_holds_below(roots, j, url),
    ensures
        roots_delete_url(roots, k, url),
    decreases 3 - k,
{
    if k == j {
        lemma_below_deletes(obj_get(roots, root_keys()[j])->Some_0, url);
    } else {
        lemma_roots_delete(roots, k + 1, j, url);
    }
}

proof fn lemma_roots_capture(roots: Json, k: int, j: int, url: Seq<char>)
    requires
        0 <= k <= j < 3,
        root_holds_below(roots, j, url),
    ensures
        roots_capture(roots, k, url),
    decreases 3 - k,
{
    if k == j {
        lemma_below_captures(obj_get(roots, root_keys()[j])->Some_0, url);
    } else {
        lemma_roots_capture(roots, k + 1, j, url);
    }
}

proof fn lemma_roots_captured_is_bookmark(roots: Json, k: int, url: Seq<char>)
    requires
        0 <= k,
        roots_capture(roots, k, url),
    ensures
        is_url_node(roots_captured(roots, k, url), url),
    decreases 3 - k,
{
    if 0 <= k < 3 {
        match obj_get(roots, root_keys()[k]) {
            Some(r) => if captures(r, url) {
                lemma_captured_is_bookmark(r, url);
            } else {
                lemma_roots_captured_is_bookmark(roots, k + 1, url);
            },
            None => lemma_roots_captured_is_bookmark(roots, k + 1, url),
        }
    }
}

/// Deleting finds a bookmark at any depth: when some root holds a bookmark for
/// `url` anywhere below it, however deeply nested in folders, the deletion
/// succeeds and changes the document.
pub proof fn law_delete_reaches_every_depth(doc: Json, url: Seq<char>)
    requires
        document_holds_below(doc, url),
    ensures
        document_deletes_url(doc, url),
{
    let roots = obj_get(doc, "roots"@)->Some_0;
    let j = choose|j: int|
        0 <= j < 3 && #[trigger] root_holds_below(roots, j, url);
    lemma_roots_delete(roots, 0, j, url);
}

/// Moving finds a bookmark at any depth: when some root holds a bookmark for
/// `url` anywhere below it, the move does not end in `NotFound`, and what it
/// takes out is a bookmark for `url`.
pub proof fn law_move_reaches_every_depth(doc: Json, url: Seq<char>, folder: Seq<char>)
    requires
        document_holds_below(doc, url),
    ensures
        moved_document(doc, url, folder).0 != MoveOutcome::NotFound,
        is_url_node(roots_captured(obj_get(doc, "roots"@)->Some_0, 0, url), url),
{
    let roots = obj_get(doc, "roots"@)->Some_0;
    let j = choose|j: int|
        0 <= j < 3 && #[trigger] root_holds_below(roots, j, url);
    lemma_roots_capture(roots, 0, j, url);
    lemma_roots_captured_is_bookmark(roots, 0, url);
}

/// The folder reached from `v` by following the path `parts[p..]`, one part per
/// level: `idx[k]` is the position, among the children at that level, of the
/// folder named `parts[p + k]`. `None` when a step does not lead to such a folder.
pub open spec fn folder_at(v: Json, parts: Seq<Seq<char>>, p: int, idx: Seq<int>) -> Option<Json>
    decreases idx.len(),
{
    if idx.len() == 0 {
        Some(v)
    } else {
        match children_of(v) {
            Some(cs) => if 0 <= idx[0] < cs.len() && 0 <= p < parts.len() && is_folder_named(
                cs[idx[0]],
                parts[p],
            ) {
                folder_at(cs[idx[0]], parts, p + 1, idx.drop_first())
            } else {
                None
            },
            None => None,
        }
    }
}

/// The folder holds, among its children, an empty folder named `name`.
pub open spec fn has_empty_child(f: Json, name: Seq<char>) -> bool {
    children_of(f) matches Some(cs) && exists|j: int| 0 <= j < cs.len() && is_empty_folder(#[trigger] cs[j], name)
}

proof fn lemma_path_removes(v: Json, parts: Seq<Seq<char>>, p: int, idx: Seq<int>, target: Seq<char>)
    requires
        0 <= p,
        p + idx.len() == parts.len(),
        folder_at(v, parts, p, idx) matches Some(f) && has_empty_child(f, target),
    ensures
        removes_folder(v, parts, p, target),
    decreases idx.len(),
{
    lemma_children_decrease(v);
    if idx.len() == 0 {
        let cs = children_of(v)->Some_0;
        let j = choose|j: int| 0 <= j < cs.len() && is_empty_folder(#[trigger] cs[j], target);
        assert(empty_folder_pred(target)(cs[j]));
    } else {
        let cs = children_of(v)->Some_0;
        let i = idx[0];
        lemma_path_removes(cs[i], parts, p + 1, idx.drop_first(), target);
        lemma_path_removes_from(cs, 0, i, parts, p, target);
    }
}

proof fn lemma_path_removes_from(cs: Seq<Json>, k: int, i: int, parts: Seq<Seq<char>>, p: int, target: Seq<char>)
    requires
        0 <= k <= i < cs.len(),
        is_folder_named(cs[i], parts[p]),
        removes_folder(cs[i], parts, p + 1, target),
    ensures
        removes_folder_from(cs, k, parts, p, target),
    decreases i - k,
{
    if k < i {
        lemma_path_removes_from(cs, k + 1, i, parts, p, target);
    }
}

proof fn lemma_roots_remove(roots: Json, k: int, j: int, parts: Seq<Seq<char>>, target: Seq<char>)
    requires
        0 <= k <= j < 3,
        obj_get(roots, root_keys()[j]) matches Some(r) && root_removes_folder(r, parts, target),
    ensures
        roots_remove_folder(roots, k, parts, target),
    decreases 3 - k,
{
    if k < j {
        lemma_roots_remove(roots, k + 1, j, parts, target);
    }
}

/// Deleting an empty folder follows its whole parent path, one part per level:
/// when a root folder named like the first part of `parent` leads, through
/// folders named like each further part in turn, to a folder that holds an
/// empty folder named `name`, the deletion succeeds. An empty `parent` stands
/// for a root folder itself.
pub proof fn law_folder_path_descends(doc: Json, parent: Seq<char>, name: Seq<char>, j: int, idx: Seq<int>)
    requires
        0 <= j < 3,
        obj_get(doc, "roots"@) matches Some(roots) && obj_get(roots, root_keys()[j]) matches Some(r) && ({
            let parts = path_parts(parent);
            if parts.len() == 0 {
                idx.len() == 0 && has_empty_child(r, name)
            } else {
                &&& field_str(r, "name"@) == Some(parts[0])
                &&& idx.len() + 1 == parts.len()
                &&& folder_at(r, parts, 1, idx) matches Some(f) && has_empty_child(f, name)
            }
        }),
    ensures
        document_removes_folder(doc, parent, name),
{
    let roots = obj_get(doc, "roots"@)->Some_0;
    let r = obj_get(roots, root_keys()[j])->Some_0;
    let parts = path_parts(parent);
    if parts.len() == 0 {
        lemma_path_removes(r, parts, 0, idx, name);
    } else {
        lemma_path_removes(r, parts, 1, idx, name);
    }
    lemma_roots_remove(roots, 0, j, parts, name);
}

// ---------------------------------------------------------------------------
// Counting bookmarks

/// How many bookmarks for `url` the node is or holds, at any depth.
pub open spec fn url_count(v: Json, url: Seq<char>) -> nat
    decreases v, 0int,
{
    proof {
        lemma_children_decrease(v);
    }
    (if is_url_node(v, url) {
        1nat
    } else {
        0nat
    }) + match children_of(v) {
        Some(cs) => url_count_seq(cs, cs.len() as int, url),
        None => 0nat,
    }
}

/// How many bookmarks for `url` the nodes `cs[..n]` are or hold.
pub open spec fn url_count_seq(cs: Seq<Json>, n: int, url: Seq<char>) -> nat
    decreases cs, n,
{
    if 0 < n <= cs.len() {
        url_count_seq(cs, n - 1, url) + url_count(cs[n - 1], url)
    } else {
        0nat
    }
}

proof fn lemma_count_seq_same(a: Seq<Json>, b: Seq<Json>, n: int, url: Seq<char>)
    requires
        0 <= n <= a.len(),
        n <= b.len(),
        forall|j: int| 0 <= j < n ==> a[j] == b[j],
    ensures
        url_count_seq(a, n, url) == url_count_seq(b, n, url),
    decreases n,
{
    if n > 0 {
        lemma_count_seq_same(a, b, n - 1, url);
    }
}

proof fn lemma_count_seq_push(a: Seq<Json>, x: Json, url: Seq<char>)
    ensures
        url_count_seq(a.push(x), a.len() + 1int, url) == url_count_seq(a, a.len() as int, url) + url_count(x, url),
{
    lemma_count_seq_same(a.push(x), a, a.len() as int, url);
}

/// Filtering out the bookmarks for `url` lowers the count, strictly when one of
/// the filtered nodes is such a bookmark.
proof fn lemma_count_kept(cs: Seq<Json>, n: int, url: Seq<char>)
    requires
        0 <= n <= cs.len(),
    ensures
        url_count_seq(kept(cs, url_node_pred(url), n), kept(cs, url_node_pred(url), n).len() as int, url)
            <= url_count_seq(cs, n, url),
        (exists|j: int| 0 <= j < n && is_url_node(#[trigger] cs[j], url)) ==> url_count_seq(
            kept(cs, url_node_pred(url), n),
            kept(cs, url_node_pred(url), n).len() as int,
            url,
        ) < url_count_seq(cs, n, url),
    decreases n,
{
    if n > 0 {
        lemma_count_kept(cs, n - 1, url);
        let k = kept(cs, url_node_pred(url), n - 1);
        let x = cs[n - 1];
        if !url_node_pred(url)(x) {
            lemma_count_seq_push(k, x, url);
        }
        if exists|j: int| 0 <= j < n && is_url_node(#[trigger] cs[j], url) {
            let j = choose|j: int| 0 <= j < n && is_url_node(#[trigger] cs[j], url);
            if j == n - 1 {
                assert(url_count(x, url) >= 1);
            }
        }
    }
}

/// Replacing one node changes the count by the difference of the two nodes.
proof fn lemma_count_update(cs: Seq<Json>, i: int, x: Json, n: int, url: Seq<char>)
    requires
        0 <= i < n <= cs.len(),
    ensures
        url_count_seq(cs.update(i, x), n, url) + url_count(cs[i], url) == url_count_seq(cs, n, url) + url_count(x, url),
    decreases n,
{
    if n - 1 > i {
        lemma_count_update(cs, i, x, n - 1, url);
    } else {
        lemma_count_seq_same(cs.update(i, x), cs, n - 1, url);
    }
}

/// Replacing the children of a node counts the new children.
proof fn lemma_count_with_children(v: Json, cs: Seq<Json>, url: Seq<char>)
    requires
        v is Object,
    ensures
        url_count(with_children(v, cs), url) == (if is_url_node(v, url) {
            1nat
        } else {
            0nat
        }) + url_count_seq(cs, cs.len() as int, url),
{
    lemma_with_children_fields(v, cs, url);
    lemma_set_then_get(v, "children"@, Json::Array(cs));
}

proof fn lemma_deleted_count(v: Json, url: Seq<char>)
    requires
        deletes_url(v, url),
    ensures
        url_count(deleted(v, url), url) < url_count(v, url),
    decreases v, 0int,
{
    lemma_children_decrease(v);
    let cs = children_of(v)->Some_0;
    if any(cs, url_node_pred(url)) {
        let j = choose|j: int| 0 <= j < cs.len() && url_node_pred(url)(#[trigger] cs[j]);
        assert(is_url_node(cs[j], url));
        lemma_count_kept(cs, cs.len() as int, url);
        lemma_count_with_children(v, without(cs, url_node_pred(url)), url);
    } else {
        lemma_deleted_from_count(cs, 0, url);
        lemma_deleted_from_shape(cs, 0, url);
        lemma_count_with_children(v, deleted_from(cs, 0, url), url);
    }
}

proof fn lemma_deleted_from_count(cs: Seq<Json>, i: int, url: Seq<char>)
    requires
        0 <= i,
        deletes_url_from(cs, i, url),
    ensures
        url_count_seq(deleted_from(cs, i, url), cs.len() as int, url) < url_count_seq(cs, cs.len() as int, url),
    decreases cs, cs.len() - i,
{
    if deletes_url(cs[i], url) {
        lemma_deleted_count(cs[i], url);
        lemma_count_update(cs, i, deleted(cs[i], url), cs.len() as int, url);
    } else {
        lemma_deleted_from_count(cs, i + 1, url);
    }
}

/// A successful deletion in a folder removes bookmarks for `url` from it: the
/// folder afterwards holds fewer of them, at any depth, than before.
pub proof fn law_delete_removes_bookmarks(v: Json, url: Seq<char>)
    requires
        deletes_url(v, url),
    ensures
        url_count(deleted(v, url), url) < url_count(v, url),
{
    lemma_deleted_count(v, url);
}

/// Removing one node takes away its count.
proof fn lemma_count_remove(cs: Seq<Json>, i: int, n: int, url: Seq<char>)
    requires
        0 <= i < n <= cs.len(),
    ensures
        url_count_seq(cs.remove(i), n - 1, url) + url_count(cs[i], url) == url_count_seq(cs, n, url),
    decreases n,
{
    if n - 1 == i {
        lemma_count_seq_same(cs.remove(i), cs, i, url);
    } else {
        lemma_count_remove(cs, i, n - 1, url);
        assert(cs.remove(i)[n - 2] == cs[n - 1]);
    }
}

proof fn lemma_capture_count(v: Json, url: Seq<char>)
    requires
        captures(v, url),
    ensures
        url_count(after_capture(v, url), url) + url_count(captured(v, url), url) == url_count(v, url),
    decreases v, 0int,
{
    lemma_children_decrease(v);
    let cs = children_of(v)->Some_0;
    if any(cs, url_node_pred(url)) {
        lemma_first_exists(cs, url_node_pred(url));
        let f = first(cs, url_node_pred(url));
        lemma_count_remove(cs, f, cs.len() as int, url);
        lemma_count_with_children(v, cs.remove(f), url);
    } else {
        lemma_capture_from_count(cs, 0, url);
        lemma_count_with_children(v, after_capture_from(cs, 0, url), url);
    }
}

proof fn lemma_capture_from_count(cs: Seq<Json>, i: int, url: Seq<char>)
    requires
        0 <= i,
        captures_from(cs, i, url),
    ensures
        after_capture_from(cs, i, url).len() == cs.len(),
        url_count_seq(after_capture_from(cs, i, url), cs.len() as int, url) + url_count(captured_from(cs, i, url), url)
            == url_count_seq(cs, cs.len() as int, url),
    decreases cs, cs.len() - i,
{
    if captures(cs[i], url) {
        lemma_capture_count(cs[i], url);
        lemma_count_update(cs, i, after_capture(cs[i], url), cs.len() as int, url);
    } else {
        lemma_capture_from_count(cs, i + 1, url);
    }
}

/// Taking a bookmark out of a folder for a move removes exactly one bookmark's
/// worth from it: what is taken out is a bookmark for `url`, and the folder
/// afterwards holds, at any depth, as many bookmarks for `url` as before less
/// those the taken-out node accounts for, so at least one fewer.
pub proof fn law_take_out_removes_one(v: Json, url: Seq<char>)
    requires
        captures(v, url),
    ensures
        is_url_node(captured(v, url), url),
        url_count(after_capture(v, url), url) + url_count(captured(v, url), url) == url_count(v, url),
        url_count(after_capture(v, url), url) < url_count(v, url),
{
    lemma_captured_is_bookmark(v, url);
    lemma_capture_count(v, url);
}
} // verus!
