//! The bookmark tree as read from a Chrome `Bookmarks` file, and the flat list
//! of entries gathered from it.
use vstd::prelude::*;

use crate::text::{concat, owned, str_eq};

verus! {

/// `std::path::PathBuf`, carried through the library unopened.
#[verifier::external_type_specification]
#[verifier::external_body]
pub struct ExPathBuf(std::path::PathBuf);

/// A node of the bookmark tree: a folder or a bookmark.
pub struct BookmarkNode {
    pub name: String,
    pub node_type: String,
    pub url: Option<String>,
    pub children: Option<Vec<BookmarkNode>>,
}

/// The three root folders of a bookmarks file.
pub struct Roots {
    pub bookmark_bar: BookmarkNode,
    pub other: BookmarkNode,
    pub synced: BookmarkNode,
}

/// The top level of a Chrome bookmarks file.
pub struct Bookmarks {
    roots: Roots,
}

/// One entry of the flat list: a bookmark, or an empty folder.
#[derive(Clone, Debug, PartialEq, Eq)]
pub struct BookmarkEntry {
    pub folder: String,
    pub name: String,
    pub url: String,
    pub is_empty_folder: bool,
}

/// The outcome of checking one entry.
#[derive(Clone, Debug, PartialEq, Eq)]
pub struct CheckResult {
    pub folder: String,
    pub name: String,
    pub url: String,
    pub status: String,
    pub is_valid: bool,
}

/// Mathematical model of a [`CheckResult`].
pub struct ResultView {
    pub folder: Seq<char>,
    pub name: Seq<char>,
    pub url: Seq<char>,
    pub status: Seq<char>,
    pub is_valid: bool,
}

impl View for CheckResult {
    type V = ResultView;

    open spec fn view(&self) -> ResultView {
        ResultView {
            folder: self.folder@,
            name: self.name@,
            url: self.url@,
            status: self.status@,
            is_valid: self.is_valid,
        }
    }
}

/// The models of a sequence of check results.
pub open spec fn results_model(v: Seq<CheckResult>) -> Seq<ResultView> {
    Seq::new(v.len(), |i: int| v[i]@)
}

/// A bookmark of the plain listing: its name and URL.
#[derive(Clone, Debug, PartialEq, Eq)]
pub struct UrlEntry {
    pub name: String,
    pub url: String,
}

/// Mathematical model of a [`BookmarkEntry`].
pub struct EntryView {
    pub folder: Seq<char>,
    pub name: Seq<char>,
    pub url: Seq<char>,
    pub is_empty_folder: bool,
}

impl View for BookmarkEntry {
    type V = EntryView;

    open spec fn view(&self) -> EntryView {
        EntryView {
            folder: self.folder@,
            name: self.name@,
            url: self.url@,
            is_empty_folder: self.is_empty_folder,
        }
    }
}

/// Mathematical model of a [`UrlEntry`]: name and URL.
impl View for UrlEntry {
    type V = (Seq<char>, Seq<char>);

    open spec fn view(&self) -> (Seq<char>, Seq<char>) {
        (self.name@, self.url@)
    }
}

/// The models of a sequence of entries.
pub open spec fn entries_model(v: Seq<BookmarkEntry>) -> Seq<EntryView> {
    Seq::new(v.len(), |i: int| v[i]@)
}

/// The models of a sequence of URL entries.
pub open spec fn url_entries_model(v: Seq<UrlEntry>) -> Seq<(Seq<char>, Seq<char>)> {
    Seq::new(v.len(), |i: int| v[i]@)
}

/// The folder path of a node's children: the node's name appended to the
/// node's own folder path with `/`, or just its name at the top.
pub open spec fn child_path(folder: Seq<char>, name: Seq<char>) -> Seq<char> {
    if folder.len() == 0 {
        name
    } else {
        folder + "/"@ + name
    }
}

/// The entry the node itself contributes when it is a bookmark with a URL.
pub open spec fn own_entry(node: BookmarkNode, folder: Seq<char>) -> Seq<EntryView> {
    if node.node_type@ == "url"@ && node.url is Some {
        seq![EntryView { folder, name: node.name@, url: node.url->Some_0@, is_empty_folder: false }]
    } else {
        Seq::empty()
    }
}

/// The entry an empty folder contributes: its URL is `folder://` and its path.
pub open spec fn empty_folder_entry(node: BookmarkNode, folder: Seq<char>) -> Seq<EntryView> {
    match node.children {
        Some(cs) => if node.node_type@ == "folder"@ && cs@.len() == 0 {
            seq![
                EntryView {
                    folder,
                    name: node.name@,
                    url: "folder://"@ + child_path(folder, node.name@),
                    is_empty_folder: true,
                },
            ]
        } else {
            Seq::empty()
        },
        None => Seq::empty(),
    }
}

/// The entries of a subtree, depth first: a bookmark's own entry, an empty
/// folder's entry, then the entries of the children in order.
pub open spec fn entries_of(node: BookmarkNode, folder: Seq<char>) -> Seq<EntryView>
    decreases node, 0int,
{
    own_entry(node, folder) + empty_folder_entry(node, folder) + match node.children {
        Some(cs) => children_entries(cs@, child_path(folder, node.name@), cs@.len() as int),
        None => Seq::empty(),
    }
}

/// The entries of `cs[..n]`, all under the folder path `folder`.
pub open spec fn children_entries(cs: Seq<BookmarkNode>, folder: Seq<char>, n: int) -> Seq<EntryView>
    decreases cs, n,
{
    if 0 < n <= cs.len() {
        children_entries(cs, folder, n - 1) + entries_of(cs[n - 1], folder)
    } else {
        Seq::empty()
    }
}

/// The bookmarks of a subtree, depth first, as (name, URL).
pub open spec fn urls_of(node: BookmarkNode) -> Seq<(Seq<char>, Seq<char>)>
    decreases node, 0int,
{
    (if node.node_type@ == "url"@ && node.url is Some {
        seq![(node.name@, node.url->Some_0@)]
    } else {
        Seq::empty()
    }) + match node.children {
        Some(cs) => children_urls(cs@, cs@.len() as int),
        None => Seq::empty(),
    }
}

/// The bookmarks of `cs[..n]`.
pub open spec fn children_urls(cs: Seq<BookmarkNode>, n: int) -> Seq<(Seq<char>, Seq<char>)>
    decreases cs, n,
{
    if 0 < n <= cs.len() {
        children_urls(cs, n - 1) + urls_of(cs[n - 1])
    } else {
        Seq::empty()
    }
}

/// Builds an entry.
fn entry(folder: &str, name: &str, url: String, is_empty_folder: bool) -> (r: BookmarkEntry)
    ensures
        r@ == (EntryView { folder: folder@, name: name@, url: url@, is_empty_folder }),
{
    BookmarkEntry { folder: owned(folder), name: owned(name), url, is_empty_folder }
}

/// Collects the bookmarks and empty folders of a subtree into `entries` (see
/// [`entries_of`]).
pub fn collect_entries(node: &BookmarkNode, folder_path: &str, entries: &mut Vec<BookmarkEntry>)
    ensures
        entries_model(final(entries)@) == entries_model(old(entries)@) + entries_of(*node, folder_path@),
    decreases *node,
{
    let ghost start = entries_model(entries@);
    let current_path = if folder_path.is_empty() {
        owned(node.name.as_str())
    } else {
        let with_slash = concat(folder_path, "/");
        concat(with_slash.as_str(), node.name.as_str())
    };
    assert(current_path@ == child_path(folder_path@, node.name@));
    if str_eq(node.node_type.as_str(), "url") {
        match &node.url {
            Some(url) => {
                let e = entry(folder_path, node.name.as_str(), owned(url.as_str()), false);
                entries.push(e);
            },
            None => {},
        }
    }
    assert(entries_model(entries@) =~= start + own_entry(*node, folder_path@));
    let ghost after_own = entries_model(entries@);
    match &node.children {
        Some(children) => {
            if str_eq(node.node_type.as_str(), "folder") && children.len() == 0 {
                let url = concat("folder://", current_path.as_str());
                let e = entry(folder_path, node.name.as_str(), url, true);
                entries.push(e);
            }
            assert(entries_model(entries@) =~= after_own + empty_folder_entry(*node, folder_path@));
            let ghost base = entries_model(entries@);
            let mut i: usize = 0;
            assert(base + children_entries(children@, current_path@, 0) =~= base);
            while i < children.len()
                invariant
                    i <= children@.len(),
                    entries_model(entries@) == base + children_entries(
                        children@,
                        current_path@,
                        i as int,
                    ),
                    node.children == Some(*children),
                decreases children.len() - i,
            {
                proof {
                    assert(decreases_to!(*node => node.children));
                    assert(decreases_to!(node.children => node.children->Some_0));
                    assert(decreases_to!(*children => children[i as int]));
                }
                collect_entries(&children[i], current_path.as_str(), entries);
                i = i + 1;
                assert(entries_model(entries@) =~= base + children_entries(
                    children@,
                    current_path@,
                    i as int,
                ));
            }
        },
        None => {},
    }
    assert(entries_model(entries@) =~= start + entries_of(*node, folder_path@));
}

/// Collects the bookmarks of a subtree as (name, URL) pairs (see [`urls_of`]);
/// the folder path is carried down but not recorded.
pub fn collect_urls(node: &BookmarkNode, folder_path: &str, entries: &mut Vec<UrlEntry>)
    ensures
        url_entries_model(final(entries)@) == url_entries_model(old(entries)@) + urls_of(*node),
    decreases *node,
{
    let ghost start = url_entries_model(entries@);
    let current_path = if folder_path.is_empty() {
        owned(node.name.as_str())
    } else {
        let with_slash = concat(folder_path, "/");
        concat(with_slash.as_str(), node.name.as_str())
    };
    if str_eq(node.node_type.as_str(), "url") {
        match &node.url {
            Some(url) => {
                entries.push(UrlEntry { name: owned(node.name.as_str()), url: owned(url.as_str()) });
            },
            None => {},
        }
    }
    let ghost base = url_entries_model(entries@);
    assert(base =~= start + (if node.node_type@ == "url"@ && node.url is Some {
        seq![(node.name@, node.url->Some_0@)]
    } else {
        Seq::empty()
    }));
    match &node.children {
        Some(children) => {
            let mut i: usize = 0;
            assert(base + children_urls(children@, 0) =~= base);
            while i < children.len()
                invariant
                    i <= children@.len(),
                    url_entries_model(entries@) == base + children_urls(children@, i as int),
                    node.children == Some(*children),
                decreases children.len() - i,
            {
                proof {
                    assert(decreases_to!(*node => node.children));
                    assert(decreases_to!(node.children => node.children->Some_0));
                    assert(decreases_to!(*children => children[i as int]));
                }
                collect_urls(&children[i], current_path.as_str(), entries);
                i = i + 1;
                assert(url_entries_model(entries@) =~= base + children_urls(children@, i as int));
            }
        },
        None => {},
    }
    assert(url_entries_model(entries@) =~= start + urls_of(*node));
}

impl Bookmarks {
    /// A bookmarks file with the given root folders.
    pub fn new(bookmark_bar: BookmarkNode, other: BookmarkNode, synced: BookmarkNode) -> (r: Bookmarks)
        ensures
            r.bar() == bookmark_bar,
            r.other_root() == other,
            r.synced_root() == synced,
    {
        Bookmarks { roots: Roots { bookmark_bar, other, synced } }
    }

    /// The bookmark bar root.
    pub closed spec fn bar(&self) -> BookmarkNode {
        self.roots.bookmark_bar
    }

    /// The "other bookmarks" root.
    pub closed spec fn other_root(&self) -> BookmarkNode {
        self.roots.other
    }

    /// The synced root.
    pub closed spec fn synced_root(&self) -> BookmarkNode {
        self.roots.synced
    }

    /// The entries of the whole file, as `parse_bookmarks` lists them: the
    /// bookmark bar, then the other bookmarks, then the synced ones.
    pub open spec fn all_entries(&self) -> Seq<EntryView> {
        entries_of(self.bar(), Seq::empty()) + entries_of(self.other_root(), Seq::empty())
            + entries_of(self.synced_root(), Seq::empty())
    }

    /// The part of `parse_bookmarks` that computes: every entry of the file.
    pub fn entries(&self) -> (r: Vec<BookmarkEntry>)
        ensures
            entries_model(r@) == self.all_entries(),
    {
        let mut entries: Vec<BookmarkEntry> = Vec::new();
        proof {
            reveal_strlit("");
            assert(""@ =~= Seq::<char>::empty());
            assert(entries_model(entries@) =~= Seq::<EntryView>::empty());
        }
        collect_entries(&self.roots.bookmark_bar, "", &mut entries);
        collect_entries(&self.roots.other, "", &mut entries);
        collect_entries(&self.roots.synced, "", &mut entries);
        entries
    }

    /// The bookmarks of the whole file for the plain listing, in the same order.
    pub fn urls(&self) -> (r: Vec<UrlEntry>)
        ensures
            url_entries_model(r@) == urls_of(self.bar()) + urls_of(self.other_root()) + urls_of(
                self.synced_root(),
            ),
    {
        let mut entries: Vec<UrlEntry> = Vec::new();
        assert(url_entries_model(entries@) =~= Seq::<(Seq<char>, Seq<char>)>::empty());
        collect_urls(&self.roots.bookmark_bar, "", &mut entries);
        collect_urls(&self.roots.other, "", &mut entries);
        collect_urls(&self.roots.synced, "", &mut entries);
        entries
    }
}


// ---------------------------------------------------------------------------
// The plain listing agrees with the entries

/// The bookmarks among entries, as (name, URL), in order: empty folders left out.
pub open spec fn bookmark_pairs(es: Seq<EntryView>) -> Seq<(Seq<char>, Seq<char>)>
    decreases es.len(),
{
    if es.len() == 0 {
        Seq::empty()
    } else {
        bookmark_pairs(es.drop_last()) + if es.last().is_empty_folder {
            Seq::empty()
        } else {
            seq![(es.last().name, es.last().url)]
        }
    }
}

proof fn lemma_pairs_append(a: Seq<EntryView>, b: Seq<EntryView>)
    ensures
        bookmark_pairs(a + b) == bookmark_pairs(a) + bookmark_pairs(b),
    decreases b.len(),
{
    if b.len() == 0 {
        assert(a + b =~= a);
        assert(bookmark_pairs(a) + bookmark_pairs(b) =~= bookmark_pairs(a));
    } else {
        lemma_pairs_append(a, b.drop_last());
        assert((a + b).drop_last() =~= a + b.drop_last());
        let tail = if b.last().is_empty_folder {
            Seq::<(Seq<char>, Seq<char>)>::empty()
        } else {
            seq![(b.last().name, b.last().url)]
        };
        assert(bookmark_pairs(a) + bookmark_pairs(b) =~= bookmark_pairs(a) + bookmark_pairs(b.drop_last()) + tail);
    }
}

proof fn lemma_pairs_one(e: EntryView)
    ensures
        bookmark_pairs(seq![e]) == (if e.is_empty_folder {
            Seq::<(Seq<char>, Seq<char>)>::empty()
        } else {
            seq![(e.name, e.url)]
        }),
{
    assert(seq![e].drop_last() =~= Seq::<EntryView>::empty());
    assert(bookmark_pairs(Seq::<EntryView>::empty()) == Seq::<(Seq<char>, Seq<char>)>::empty());
    assert(seq![e].last() == e);
    assert(Seq::<(Seq<char>, Seq<char>)>::empty() + seq![(e.name, e.url)] =~= seq![(e.name, e.url)]);
    assert(Seq::<(Seq<char>, Seq<char>)>::empty() + Seq::<(Seq<char>, Seq<char>)>::empty() =~= Seq::<
        (Seq<char>, Seq<char>),
    >::empty());
}

/// For any node and folder path, the plain listing of the node (what
/// `collect_urls` appends) is the bookmarks among its entries (what
/// `collect_entries` appends), in the same order.
pub proof fn law_node_listing_matches_entries(node: BookmarkNode, folder: Seq<char>)
    ensures
        bookmark_pairs(entries_of(node, folder)) == urls_of(node),
    decreases node, 0int,
{
    let own = own_entry(node, folder);
    let empty = empty_folder_entry(node, folder);
    let rest = match node.children {
        Some(cs) => children_entries(cs@, child_path(folder, node.name@), cs@.len() as int),
        None => Seq::empty(),
    };
    lemma_pairs_append(own + empty, rest);
    lemma_pairs_append(own, empty);
    if node.node_type@ == "url"@ && node.url is Some {
        lemma_pairs_one(own[0]);
        assert(own =~= seq![own[0]]);
    } else {
        assert(bookmark_pairs(own) == Seq::<(Seq<char>, Seq<char>)>::empty());
    }
    if empty.len() > 0 {
        lemma_pairs_one(empty[0]);
        assert(empty =~= seq![empty[0]]);
    } else {
        assert(bookmark_pairs(empty) == Seq::<(Seq<char>, Seq<char>)>::empty());
    }
    match node.children {
        Some(cs) => {
            assert(decreases_to!(node => node.children));
            assert(decreases_to!(node.children => node.children->Some_0));
            assert(decreases_to!(cs => cs@));
            lemma_children_pairs(cs@, child_path(folder, node.name@), cs@.len() as int);
        },
        None => {
            assert(bookmark_pairs(rest) == Seq::<(Seq<char>, Seq<char>)>::empty());
        },
    }
    let own_urls = if node.node_type@ == "url"@ && node.url is Some {
        seq![(node.name@, node.url->Some_0@)]
    } else {
        Seq::<(Seq<char>, Seq<char>)>::empty()
    };
    assert(bookmark_pairs(own) == own_urls);
    assert(bookmark_pairs(own) + bookmark_pairs(empty) =~= own_urls);
}

proof fn lemma_children_pairs(cs: Seq<BookmarkNode>, folder: Seq<char>, n: int)
    ensures
        bookmark_pairs(children_entries(cs, folder, n)) == children_urls(cs, n),
    decreases cs, n,
{
    if 0 < n <= cs.len() {
        lemma_children_pairs(cs, folder, n - 1);
        assert(decreases_to!(cs => cs[n - 1]));
        law_node_listing_matches_entries(cs[n - 1], folder);
        lemma_pairs_append(children_entries(cs, folder, n - 1), entries_of(cs[n - 1], folder));
    } else {
        assert(bookmark_pairs(Seq::<EntryView>::empty()) == Seq::<(Seq<char>, Seq<char>)>::empty());
    }
}

/// The plain listing of a file lists exactly the bookmarks among its entries, in
/// the same order: the entries without the empty folders, as (name, URL).
pub proof fn law_listing_matches_entries(b: Bookmarks)
    ensures
        bookmark_pairs(b.all_entries()) == urls_of(b.bar()) + urls_of(b.other_root()) + urls_of(b.synced_root()),
{
    let e1 = entries_of(b.bar(), Seq::empty());
    let e2 = entries_of(b.other_root(), Seq::empty());
    let e3 = entries_of(b.synced_root(), Seq::empty());
    law_node_listing_matches_entries(b.bar(), Seq::empty());
    law_node_listing_matches_entries(b.other_root(), Seq::empty());
    law_node_listing_matches_entries(b.synced_root(), Seq::empty());
    lemma_pairs_append(e1 + e2, e3);
    lemma_pairs_append(e1, e2);
}
} // verus!
