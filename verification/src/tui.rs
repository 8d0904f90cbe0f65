//! The state of the interactive results screen and how key presses change it.
//!
//! Work that leaves the process (asking whether Chrome runs, opening a URL,
//! rewriting the bookmarks file, exporting HTML) is not done here: a key press
//! yields an [`Action`] that the caller performs, reporting back where the
//! screen needs the answer.
use std::path::PathBuf;

use vstd::prelude::*;

use crate::entries::{results_model, CheckResult, ResultView};
use crate::order::{keys_model, sorted_positions, stable_order, SortKey};
use crate::text::{contains_seq, contains_str, lowercase, owned, to_lowercase};

verus! {

/// Which column the results are sorted by.
#[derive(Clone, Copy, Debug, PartialEq, Eq, Structural)]
pub enum SortMode {
    Unsorted,
    Status,
    Folder,
    Name,
    Url,
}

/// Which field of the edit popup has the cursor.
#[derive(Clone, Copy, Debug, PartialEq, Eq, Structural)]
pub enum EditField {
    Folder,
    Name,
    Url,
}

/// The state of the results screen.
pub struct App {
    pub profile_name: String,
    pub results: Vec<CheckResult>,
    pub total: usize,
    pub checked: usize,
    pub invalid: usize,
    /// The highlighted row of the table, counted among the visible rows.
    pub selected: Option<usize>,
    pub checking_done: bool,
    pub sort_mode: SortMode,
    pub sort_ascending: bool,
    pub concurrency: usize,
    pub timeout: u64,
    pub search_mode: bool,
    pub search_query: String,
    pub refresh_requested: bool,
    pub pending_d: bool,
    /// A `:` was typed; the next key completes the command.
    pub pending_colon: bool,
    pub confirm_delete: bool,
    pub delete_target_url: String,
    /// Deletions confirmed but not yet written to the bookmarks file.
    pub staged_edits: Vec<FileEdit>,
    pub bookmarks_path: PathBuf,
    pub edit_mode: bool,
    pub edit_field: EditField,
    pub edit_folder: String,
    pub edit_name: String,
    pub edit_url: String,
    /// Cursor position in the active edit field, in characters.
    pub edit_cursor: usize,
    pub edit_original_url: String,
    pub edit_original_folder: String,
    /// The URLs marked for deletion, each once.
    pub selected_urls: Vec<String>,
    pub chrome_warning: bool,
    pub popup_message: Option<String>,
}

/// Mathematical model of the screen state (all but the file path).
pub struct AppState {
    pub profile_name: Seq<char>,
    pub results: Seq<ResultView>,
    pub total: usize,
    pub checked: usize,
    pub invalid: usize,
    pub selected: Option<usize>,
    pub checking_done: bool,
    pub sort_mode: SortMode,
    pub sort_ascending: bool,
    pub concurrency: usize,
    pub timeout: u64,
    pub search_mode: bool,
    pub search_query: Seq<char>,
    pub refresh_requested: bool,
    pub pending_d: bool,
    pub pending_colon: bool,
    pub confirm_delete: bool,
    pub delete_target_url: Seq<char>,
    pub staged_edits: Seq<EditView>,
    pub edit_mode: bool,
    pub edit_field: EditField,
    pub edit_folder: Seq<char>,
    pub edit_name: Seq<char>,
    pub edit_url: Seq<char>,
    pub edit_cursor: usize,
    pub edit_original_url: Seq<char>,
    pub edit_original_folder: Seq<char>,
    pub selected_urls: Seq<Seq<char>>,
    pub chrome_warning: bool,
    pub popup_message: Option<Seq<char>>,
}

/// The models of a sequence of strings.
pub open spec fn strs(v: Seq<String>) -> Seq<Seq<char>> {
    Seq::new(v.len(), |i: int| v[i]@)
}

/// The model of an optional string.
pub open spec fn opt_str(v: Option<String>) -> Option<Seq<char>> {
    match v {
        Some(s) => Some(s@),
        None => None,
    }
}

impl View for App {
    type V = AppState;

    open spec fn view(&self) -> AppState {
        AppState {
            profile_name: self.profile_name@,
            results: results_model(self.results@),
            total: self.total,
            checked: self.checked,
            invalid: self.invalid,
            selected: self.selected,
            checking_done: self.checking_done,
            sort_mode: self.sort_mode,
            sort_ascending: self.sort_ascending,
            concurrency: self.concurrency,
            timeout: self.timeout,
            search_mode: self.search_mode,
            search_query: self.search_query@,
            refresh_requested: self.refresh_requested,
            pending_d: self.pending_d,
            pending_colon: self.pending_colon,
            confirm_delete: self.confirm_delete,
            delete_target_url: self.delete_target_url@,
            staged_edits: edits_model(self.staged_edits@),
            edit_mode: self.edit_mode,
            edit_field: self.edit_field,
            edit_folder: self.edit_folder@,
            edit_name: self.edit_name@,
            edit_url: self.edit_url@,
            edit_cursor: self.edit_cursor,
            edit_original_url: self.edit_original_url@,
            edit_original_folder: self.edit_original_folder@,
            selected_urls: strs(self.selected_urls@),
            chrome_warning: self.chrome_warning,
            popup_message: opt_str(self.popup_message),
        }
    }
}

// ---------------------------------------------------------------------------
// Visible rows

/// The search query (already lowercased) occurs in the lowercased folder, name,
/// URL or status of the result.
pub open spec fn row_matches(r: ResultView, q: Seq<char>) -> bool {
    ||| contains_seq(lowercase(r.folder), q)
    ||| contains_seq(lowercase(r.name), q)
    ||| contains_seq(lowercase(r.url), q)
    ||| contains_seq(lowercase(r.status), q)
}

/// The positions among `results[..n]` that the lowercased query `q` keeps, in
/// order; an empty query keeps all.
pub open spec fn matching_rows(results: Seq<ResultView>, q: Seq<char>, n: int) -> Seq<int>
    decreases n,
{
    if n <= 0 {
        Seq::empty()
    } else {
        let m = matching_rows(results, q, n - 1);
        if q.len() == 0 || row_matches(results[n - 1], q) {
            m.push(n - 1)
        } else {
            m
        }
    }
}

/// The sort key of a result: validity then status text for the status column,
/// otherwise the lowercased column text.
pub open spec fn row_key(r: ResultView, mode: SortMode) -> (u8, Seq<char>) {
    match mode {
        SortMode::Status => (if r.is_valid { 1u8 } else { 0u8 }, r.status),
        SortMode::Folder => (0u8, lowercase(r.folder)),
        SortMode::Name => (0u8, lowercase(r.name)),
        SortMode::Url => (0u8, lowercase(r.url)),
        SortMode::Unsorted => (0u8, Seq::empty()),
    }
}

/// The positions in `results` of the rows the table shows, in display order:
/// the rows matching the search, stably sorted by the sort column in the sort
/// direction (unsorted when no column is chosen).
pub open spec fn visible_rows(s: AppState) -> Seq<int> {
    let rows = matching_rows(s.results, lowercase(s.search_query), s.results.len() as int);
    if s.sort_mode == SortMode::Unsorted {
        rows
    } else {
        let keys = Seq::new(rows.len(), |k: int| row_key(s.results[rows[k]], s.sort_mode));
        let order = sorted_positions(keys, s.sort_ascending);
        Seq::new(order.len(), |k: int| rows[order[k] as int])
    }
}

/// The number of visible rows.
pub open spec fn row_count(s: AppState) -> int {
    visible_rows(s).len() as int
}

/// The visible rows lie within the results.
pub proof fn lemma_matching_rows(results: Seq<ResultView>, q: Seq<char>, n: int)
    requires
        0 <= n <= results.len(),
    ensures
        matching_rows(results, q, n).len() <= n,
        forall|k: int|
            0 <= k < matching_rows(results, q, n).len() ==> 0 <= #[trigger] matching_rows(
                results,
                q,
                n,
            )[k] < n,
    decreases n,
{
    if n > 0 {
        lemma_matching_rows(results, q, n - 1);
    }
}

/// The visible rows lie within the results and are no more than the results.
pub proof fn lemma_visible_rows(s: AppState)
    requires
        s.results.len() <= usize::MAX,
    ensures
        row_count(s) <= s.results.len(),
        forall|k: int| 0 <= k < row_count(s) ==> 0 <= #[trigger] visible_rows(s)[k] < s.results.len(),
{
    let n = s.results.len() as int;
    let rows = matching_rows(s.results, lowercase(s.search_query), n);
    lemma_matching_rows(s.results, lowercase(s.search_query), n);
    if s.sort_mode != SortMode::Unsorted {
        let keys = Seq::new(rows.len(), |k: int| row_key(s.results[rows[k]], s.sort_mode));
        crate::order::lemma_sorted_positions_stable(keys, s.sort_ascending);
    }
}

/// The smaller of two integers.
pub open spec fn min_int(a: int, b: int) -> int {
    if a < b {
        a
    } else {
        b
    }
}

impl App {
    /// A fresh screen for `total` entries: nothing checked yet, no sorting, no
    /// search, the first row highlighted when there are entries.
    pub fn new(profile_name: String, total: usize, concurrency: usize, timeout: u64, bookmarks_path: PathBuf) -> (r: App)
        ensures
            r@ == (AppState {
                profile_name: profile_name@,
                results: Seq::empty(),
                total,
                checked: 0,
                invalid: 0,
                selected: if total > 0 { Some(0usize) } else { None },
                checking_done: false,
                sort_mode: SortMode::Unsorted,
                sort_ascending: true,
                concurrency,
                timeout,
                search_mode: false,
                search_query: Seq::empty(),
                refresh_requested: false,
                pending_d: false,
                pending_colon: false,
                confirm_delete: false,
                delete_target_url: Seq::empty(),
                staged_edits: Seq::empty(),
                edit_mode: false,
                edit_field: EditField::Folder,
                edit_folder: Seq::empty(),
                edit_name: Seq::empty(),
                edit_url: Seq::empty(),
                edit_cursor: 0,
                edit_original_url: Seq::empty(),
                edit_original_folder: Seq::empty(),
                selected_urls: Seq::empty(),
                chrome_warning: false,
                popup_message: None,
            }),
            r.bookmarks_path == bookmarks_path,
    {
        let r = App {
            profile_name,
            results: Vec::new(),
            total,
            checked: 0,
            invalid: 0,
            selected: if total > 0 { Some(0) } else { None },
            checking_done: false,
            sort_mode: SortMode::Unsorted,
            sort_ascending: true,
            concurrency,
            timeout,
            search_mode: false,
            search_query: String::new(),
            refresh_requested: false,
            pending_d: false,
            pending_colon: false,
            confirm_delete: false,
            delete_target_url: String::new(),
            staged_edits: Vec::new(),
            bookmarks_path,
            edit_mode: false,
            edit_field: EditField::Folder,
            edit_folder: String::new(),
            edit_name: String::new(),
            edit_url: String::new(),
            edit_cursor: 0,
            edit_original_url: String::new(),
            edit_original_folder: String::new(),
            selected_urls: Vec::new(),
            chrome_warning: false,
            popup_message: None,
        };
        assert(results_model(r.results@) =~= Seq::<ResultView>::empty());
        assert(strs(r.selected_urls@) =~= Seq::<Seq<char>>::empty());
        assert(edits_model(r.staged_edits@) =~= Seq::<EditView>::empty());
        r
    }

    /// The positions in `results` of the visible rows (see [`visible_rows`]).
    pub fn visible_indices(&self) -> (r: Vec<usize>)
        ensures
            r@.len() == row_count(self@),
            forall|k: int| 0 <= k < r@.len() ==> #[trigger] r@[k] as int == visible_rows(self@)[k],
    {
        let ghost s = self@;
        let query = to_lowercase(self.search_query.as_str());
        let empty = query.as_str().is_empty();
        let mut rows: Vec<usize> = Vec::new();
        let mut i: usize = 0;
        while i < self.results.len()
            invariant
                s == self@,
                query@ == lowercase(s.search_query),
                empty == (query@.len() == 0),
                i <= self.results@.len(),
                rows@.len() == matching_rows(s.results, query@, i as int).len(),
                forall|k: int| 0 <= k < rows@.len() ==> #[trigger] rows@[k] as int == matching_rows(s.results, query@, i as int)[k],
            decreases self.results.len() - i,
        {
            let r = &self.results[i];
            let keep = empty || {
                let q = query.as_str();
                contains_str(to_lowercase(r.folder.as_str()).as_str(), q)
                    || contains_str(to_lowercase(r.name.as_str()).as_str(), q)
                    || contains_str(to_lowercase(r.url.as_str()).as_str(), q)
                    || contains_str(to_lowercase(r.status.as_str()).as_str(), q)
            };
            assert(s.results[i as int] == r@);
            if keep {
                rows.push(i);
            }
            i = i + 1;
        }
        if self.sort_mode == SortMode::Unsorted {
            return rows;
        }
        let ghost rows_m = matching_rows(s.results, query@, s.results.len() as int);
        proof {
            lemma_matching_rows(s.results, query@, s.results.len() as int);
        }
        let mut keys: Vec<SortKey> = Vec::new();
        let mut k: usize = 0;
        while k < rows.len()
            invariant
                s == self@,
                s.sort_mode != SortMode::Unsorted,
                rows@.len() == rows_m.len(),
                forall|j: int| 0 <= j < rows@.len() ==> #[trigger] rows@[j] as int == rows_m[j],
                forall|j: int| 0 <= j < rows_m.len() ==> 0 <= #[trigger] rows_m[j] < s.results.len(),
                k <= rows@.len(),
                keys@.len() == k,
                forall|j: int| 0 <= j < k ==> #[trigger] keys@[j]@ == row_key(s.results[rows_m[j]], s.sort_mode),
            decreases rows.len() - k,
        {
            assert(rows@[k as int] as int == rows_m[k as int]);
            let r = &self.results[rows[k]];
            let key = match self.sort_mode {
                SortMode::Status => SortKey { rank: if r.is_valid { 1 } else { 0 }, text: owned(r.status.as_str()) },
                SortMode::Folder => SortKey { rank: 0, text: to_lowercase(r.folder.as_str()) },
                SortMode::Name => SortKey { rank: 0, text: to_lowercase(r.name.as_str()) },
                _ => SortKey { rank: 0, text: to_lowercase(r.url.as_str()) },
            };
            keys.push(key);
            k = k + 1;
        }
        let ghost ks = Seq::new(rows_m.len(), |j: int| row_key(s.results[rows_m[j]], s.sort_mode));
        assert(keys_model(keys@) =~= ks);
        let order = stable_order(&keys, self.sort_ascending);
        let mut out: Vec<usize> = Vec::new();
        let mut m: usize = 0;
        while m < order.len()
            invariant
                s == self@,
                rows@.len() == rows_m.len(),
                forall|j: int| 0 <= j < rows@.len() ==> #[trigger] rows@[j] as int == rows_m[j],
                crate::order::is_stable_order(order@, ks, s.sort_ascending),
                ks.len() == rows_m.len(),
                m <= order@.len(),
                out@.len() == m,
                forall|j: int| 0 <= j < m ==> #[trigger] out@[j] as int == rows_m[order@[j] as int],
            decreases order.len() - m,
        {
            let pos = order[m];
            assert(order@[m as int] < ks.len());
            out.push(rows[pos]);
            m = m + 1;
        }
        out
    }

    /// `sorted_results`: the visible rows, in display order.
    pub fn sorted_results(&self) -> (r: Vec<&CheckResult>)
        ensures
            r@.len() == row_count(self@),
            forall|k: int| 0 <= k < r@.len() ==> (#[trigger] r@[k])@ == self@.results[visible_rows(self@)[k]],
    {
        let rows = self.visible_indices();
        let _n = self.results.len();
        proof {
            lemma_visible_rows(self@);
        }
        let mut out: Vec<&CheckResult> = Vec::new();
        let mut k: usize = 0;
        while k < rows.len()
            invariant
                rows@.len() == row_count(self@),
                forall|j: int| 0 <= j < rows@.len() ==> #[trigger] rows@[j] as int == visible_rows(self@)[j],
                forall|j: int| 0 <= j < row_count(self@) ==> 0 <= #[trigger] visible_rows(self@)[j] < self@.results.len(),
                k <= rows@.len(),
                out@.len() == k,
                forall|j: int| 0 <= j < k ==> (#[trigger] out@[j])@ == self@.results[visible_rows(self@)[j]],
            decreases rows.len() - k,
        {
            assert(rows@[k as int] as int == visible_rows(self@)[k as int]);
            out.push(&self.results[rows[k]]);
            k = k + 1;
        }
        out
    }

    /// The number of visible rows.
    pub fn row_count(&self) -> (r: usize)
        ensures
            r == row_count(self@),
    {
        self.visible_indices().len()
    }
}


// ---------------------------------------------------------------------------
// Moving the highlight and sorting

/// `s` with another row highlighted.
pub open spec fn with_selected(s: AppState, selected: Option<usize>) -> AppState {
    AppState { selected, ..s }
}

/// One row down, staying on the last row.
pub open spec fn scrolled_down(s: AppState) -> AppState {
    let len = row_count(s);
    if len == 0 {
        s
    } else {
        with_selected(
            s,
            Some(
                match s.selected {
                    Some(i) => min_int(i + 1, len - 1) as usize,
                    None => 0usize,
                },
            ),
        )
    }
}

/// One row up, staying on the first row.
pub open spec fn scrolled_up(s: AppState) -> AppState {
    with_selected(
        s,
        Some(
            match s.selected {
                Some(i) => if i >= 1 {
                    (i - 1) as usize
                } else {
                    0usize
                },
                None => 0usize,
            },
        ),
    )
}

/// Twenty rows down, staying on the last row.
pub open spec fn paged_down(s: AppState) -> AppState {
    let len = row_count(s);
    if len == 0 {
        s
    } else {
        with_selected(
            s,
            Some(
                match s.selected {
                    Some(i) => min_int(i + 20, len - 1) as usize,
                    None => 0usize,
                },
            ),
        )
    }
}

/// Twenty rows up, staying on the first row.
pub open spec fn paged_up(s: AppState) -> AppState {
    with_selected(
        s,
        Some(
            match s.selected {
                Some(i) => if i >= 20 {
                    (i - 20) as usize
                } else {
                    0usize
                },
                None => 0usize,
            },
        ),
    )
}

/// The last row highlighted, when there is one.
pub open spec fn at_bottom(s: AppState) -> AppState {
    let len = row_count(s);
    if len > 0 {
        with_selected(s, Some((len - 1) as usize))
    } else {
        s
    }
}

/// Choosing a sort column: the same column again flips the direction, another
/// column sorts ascending; the first row is highlighted.
pub open spec fn sorted_by(s: AppState, mode: SortMode) -> AppState {
    if s.sort_mode == mode {
        AppState { sort_ascending: !s.sort_ascending, selected: Some(0usize), ..s }
    } else {
        AppState { sort_mode: mode, sort_ascending: true, selected: Some(0usize), ..s }
    }
}

impl App {
    /// Highlights another row.
    pub fn set_selected(&mut self, selected: Option<usize>)
        ensures
            final(self)@ == with_selected(old(self)@, selected),
            final(self).bookmarks_path == old(self).bookmarks_path,
    {
        self.selected = selected;
    }

    fn scroll_down(&mut self)
        ensures
            final(self)@ == scrolled_down(old(self)@),
            final(self).bookmarks_path == old(self).bookmarks_path,
    {
        let len = self.row_count();
        if len == 0 {
            return;
        }
        let i = match self.selected {
            Some(i) => if i >= len - 1 { len - 1 } else { i + 1 },
            None => 0,
        };
        self.selected = Some(i);
    }

    fn scroll_up(&mut self)
        ensures
            final(self)@ == scrolled_up(old(self)@),
            final(self).bookmarks_path == old(self).bookmarks_path,
    {
        let i = match self.selected {
            Some(i) => i.saturating_sub(1),
            None => 0,
        };
        self.selected = Some(i);
    }

    fn page_down(&mut self)
        ensures
            final(self)@ == paged_down(old(self)@),
            final(self).bookmarks_path == old(self).bookmarks_path,
    {
        let len = self.row_count();
        if len == 0 {
            return;
        }
        let i = match self.selected {
            Some(i) => if i >= len - 1 || len - 1 - i < 20 { len - 1 } else { i + 20 },
            None => 0,
        };
        self.selected = Some(i);
    }

    fn page_up(&mut self)
        ensures
            final(self)@ == paged_up(old(self)@),
            final(self).bookmarks_path == old(self).bookmarks_path,
    {
        let i = match self.selected {
            Some(i) => i.saturating_sub(20),
            None => 0,
        };
        self.selected = Some(i);
    }

    fn go_bottom(&mut self)
        ensures
            final(self)@ == at_bottom(old(self)@),
            final(self).bookmarks_path == old(self).bookmarks_path,
    {
        let len = self.row_count();
        if len > 0 {
            self.selected = Some(len - 1);
        }
    }

    fn set_sort_mode(&mut self, mode: SortMode)
        ensures
            final(self)@ == sorted_by(old(self)@, mode),
            final(self).bookmarks_path == old(self).bookmarks_path,
    {
        if self.sort_mode == mode {
            self.sort_ascending = !self.sort_ascending;
        } else {
            self.sort_mode = mode;
            self.sort_ascending = true;
        }
        self.selected = Some(0);
    }
}

// ---------------------------------------------------------------------------
// Keys and actions

/// A key as the screen distinguishes keys.
#[derive(Clone, Copy, Debug, PartialEq, Eq, Structural)]
pub enum Key {
    Char(char),
    Esc,
    Enter,
    Backspace,
    Delete,
    Tab,
    BackTab,
    Left,
    Right,
    Up,
    Down,
    Home,
    End,
    PageUp,
    PageDown,
    Other,
}

/// A key press: the key and whether Control was held.
#[derive(Clone, Copy, Debug, PartialEq, Eq, Structural)]
pub struct KeyInput {
    pub code: Key,
    pub ctrl: bool,
}

/// What waits for the answer to "is Chrome running?".
#[derive(Clone, Copy, Debug, PartialEq, Eq, Structural)]
pub enum ChromeGate {
    /// Opening the edit popup on the highlighted row.
    Edit,
    /// Asking to confirm a deletion.
    Delete,
}

/// A change to write to the bookmarks file.
#[derive(Debug, PartialEq, Eq)]
pub enum FileEdit {
    /// Rename the bookmark for `original_url` and point it at `new_url`.
    Update { original_url: String, new_name: String, new_url: String },
    /// Move the bookmark for `url` into the folder path `folder`.
    Move { url: String, folder: String },
    /// Delete the bookmarks for `url`.
    DeleteBookmark { url: String },
    /// Delete the empty folder `name` under the folder path `parent`.
    DeleteEmptyFolder { parent: String, name: String },
}

/// Mathematical model of a [`FileEdit`].
pub enum EditView {
    Update(Seq<char>, Seq<char>, Seq<char>),
    Move(Seq<char>, Seq<char>),
    DeleteBookmark(Seq<char>),
    DeleteEmptyFolder(Seq<char>, Seq<char>),
}

impl View for FileEdit {
    type V = EditView;

    open spec fn view(&self) -> EditView {
        match self {
            FileEdit::Update { original_url, new_name, new_url } => EditView::Update(
                original_url@,
                new_name@,
                new_url@,
            ),
            FileEdit::Move { url, folder } => EditView::Move(url@, folder@),
            FileEdit::DeleteBookmark { url } => EditView::DeleteBookmark(url@),
            FileEdit::DeleteEmptyFolder { parent, name } => EditView::DeleteEmptyFolder(
                parent@,
                name@,
            ),
        }
    }
}

/// The models of a sequence of file edits.
pub open spec fn edits_model(v: Seq<FileEdit>) -> Seq<EditView> {
    Seq::new(v.len(), |i: int| v[i]@)
}

/// What the caller is to do after a key press.
#[derive(Debug, PartialEq, Eq)]
pub enum Action {
    Nothing,
    /// Leave the screen.
    Quit,
    /// Ask whether Chrome runs and report back with [`App::chrome_checked`].
    CheckChrome(ChromeGate),
    /// Open the URL in the default browser.
    OpenUrl(String),
    /// Write the edits to the bookmarks file in order, export HTML, and report
    /// the export with [`App::set_export_result`].
    Save(Vec<FileEdit>),
}

/// Mathematical model of an [`Action`].
pub enum ActionView {
    Nothing,
    Quit,
    CheckChrome(ChromeGate),
    OpenUrl(Seq<char>),
    Save(Seq<EditView>),
}

impl View for Action {
    type V = ActionView;

    open spec fn view(&self) -> ActionView {
        match self {
            Action::Nothing => ActionView::Nothing,
            Action::Quit => ActionView::Quit,
            Action::CheckChrome(g) => ActionView::CheckChrome(*g),
            Action::OpenUrl(u) => ActionView::OpenUrl(u@),
            Action::Save(v) => ActionView::Save(edits_model(v@)),
        }
    }
}

// ---------------------------------------------------------------------------
// The search line

/// A key while typing a search: Esc clears and leaves the search, Enter leaves
/// it keeping the query, Backspace and characters edit the query; each of these
/// highlights the first row.
pub open spec fn search_key(s: AppState, k: KeyInput) -> AppState {
    match k.code {
        Key::Esc => AppState { search_mode: false, search_query: Seq::empty(), selected: Some(0usize), ..s },
        Key::Enter => AppState { search_mode: false, selected: Some(0usize), ..s },
        Key::Backspace => AppState {
            search_query: if s.search_query.len() > 0 {
                s.search_query.drop_last()
            } else {
                s.search_query
            },
            selected: Some(0usize),
            ..s
        },
        Key::Char(c) => AppState { search_query: s.search_query.push(c), selected: Some(0usize), ..s },
        _ => s,
    }
}

// ---------------------------------------------------------------------------
// The edit popup

/// The text of the active edit field.
pub open spec fn edit_buf(s: AppState) -> Seq<char> {
    match s.edit_field {
        EditField::Folder => s.edit_folder,
        EditField::Name => s.edit_name,
        EditField::Url => s.edit_url,
    }
}

/// `s` with the active edit field replaced.
pub open spec fn with_edit_buf(s: AppState, b: Seq<char>) -> AppState {
    match s.edit_field {
        EditField::Folder => AppState { edit_folder: b, ..s },
        EditField::Name => AppState { edit_name: b, ..s },
        EditField::Url => AppState { edit_url: b, ..s },
    }
}

/// Where typing lands: the cursor, or the end of the text when the cursor is past it.
pub open spec fn edit_pos(s: AppState) -> int {
    min_int(s.edit_cursor as int, edit_buf(s).len() as int)
}

/// The next field after Tab.
pub open spec fn next_field(f: EditField) -> EditField {
    match f {
        EditField::Folder => EditField::Name,
        EditField::Name => EditField::Url,
        EditField::Url => EditField::Folder,
    }
}

/// The previous field after Shift+Tab.
pub open spec fn prev_field(f: EditField) -> EditField {
    match f {
        EditField::Folder => EditField::Url,
        EditField::Name => EditField::Folder,
        EditField::Url => EditField::Name,
    }
}

/// Shift+Tab: the previous field, with the cursor at its end.
pub open spec fn edit_back_tab(s: AppState) -> AppState {
    let t = AppState { edit_field: prev_field(s.edit_field), ..s };
    AppState { edit_cursor: edit_buf(t).len() as usize, ..t }
}

/// Backspace: deletes the character before the typing position and moves the
/// cursor back, when the cursor is not at the start.
#[verifier::opaque]
pub open spec fn edit_backspace(s: AppState) -> AppState {
    if s.edit_cursor > 0 {
        let p = edit_pos(s);
        let t = if p > 0 {
            with_edit_buf(s, edit_buf(s).remove(p - 1))
        } else {
            s
        };
        AppState { edit_cursor: (s.edit_cursor - 1) as usize, ..t }
    } else {
        s
    }
}

/// The three cases of Backspace.
proof fn lemma_backspace(s: AppState, b: Seq<char>)
    ensures
        s.edit_cursor > 0 && edit_pos(s) > 0 && b == edit_buf(s).remove(edit_pos(s) - 1) ==> edit_backspace(s)
            == (AppState { edit_cursor: (s.edit_cursor - 1) as usize, ..with_edit_buf(s, b) }),
        s.edit_cursor > 0 && edit_pos(s) == 0 ==> edit_backspace(s) == (AppState {
            edit_cursor: (s.edit_cursor - 1) as usize,
            ..s
        }),
        s.edit_cursor == 0 ==> edit_backspace(s) == s,
{
    reveal(edit_backspace);
}

/// Delete: deletes the character under the cursor, if any.
pub open spec fn edit_delete(s: AppState) -> AppState {
    if s.edit_cursor < edit_buf(s).len() {
        with_edit_buf(s, edit_buf(s).remove(s.edit_cursor as int))
    } else {
        s
    }
}

/// A character: inserted at the typing position; the cursor moves on.
pub open spec fn edit_insert(s: AppState, c: char) -> AppState {
    let t = with_edit_buf(s, edit_buf(s).insert(edit_pos(s), c));
    AppState { edit_cursor: (s.edit_cursor + 1) as usize, ..t }
}

/// A key in the edit popup, other than Enter and Ctrl+s (which save).
pub open spec fn edit_key(s: AppState, k: KeyInput) -> AppState {
    match k.code {
        Key::Esc => AppState { edit_mode: false, ..s },
        Key::Tab => AppState { edit_field: next_field(s.edit_field), ..s },
        Key::BackTab => edit_back_tab(s),
        Key::Left => AppState {
            edit_cursor: if s.edit_cursor >= 1 {
                (s.edit_cursor - 1) as usize
            } else {
                0usize
            },
            ..s
        },
        Key::Right => if s.edit_cursor < edit_buf(s).len() {
            AppState { edit_cursor: (s.edit_cursor + 1) as usize, ..s }
        } else {
            s
        },
        Key::Home => AppState { edit_cursor: 0usize, ..s },
        Key::End => AppState { edit_cursor: edit_buf(s).len() as usize, ..s },
        Key::Backspace => edit_backspace(s),
        Key::Delete => edit_delete(s),
        Key::Char(c) => edit_insert(s, c),
        _ => s,
    }
}

impl App {
    fn handle_search_key(&mut self, key: &KeyInput)
        ensures
            final(self)@ == search_key(old(self)@, *key),
            final(self).bookmarks_path == old(self).bookmarks_path,
    {
        match key.code {
            Key::Esc => {
                self.search_mode = false;
                self.search_query = String::new();
                self.selected = Some(0);
            },
            Key::Enter => {
                self.search_mode = false;
                self.selected = Some(0);
            },
            Key::Backspace => {
                let _ = crate::text::pop_char(&mut self.search_query);
                self.selected = Some(0);
            },
            Key::Char(c) => {
                crate::text::push_char(&mut self.search_query, c);
                self.selected = Some(0);
            },
            _ => {},
        }
    }

    /// The text of the active edit field.
    fn edit_buf(&self) -> (r: &String)
        ensures
            r@ == edit_buf(self@),
    {
        match self.edit_field {
            EditField::Folder => &self.edit_folder,
            EditField::Name => &self.edit_name,
            EditField::Url => &self.edit_url,
        }
    }

    /// Replaces the text of the active edit field.
    fn set_edit_buf(&mut self, b: String)
        ensures
            final(self)@ == with_edit_buf(old(self)@, b@),
            final(self).bookmarks_path == old(self).bookmarks_path,
    {
        match self.edit_field {
            EditField::Folder => self.edit_folder = b,
            EditField::Name => self.edit_name = b,
            EditField::Url => self.edit_url = b,
        }
    }

    fn edit_back_tab(&mut self)
        ensures
            final(self)@ == edit_back_tab(old(self)@),
            final(self).bookmarks_path == old(self).bookmarks_path,
    {
        self.edit_field = match self.edit_field {
            EditField::Folder => EditField::Url,
            EditField::Name => EditField::Folder,
            EditField::Url => EditField::Name,
        };
        let len = crate::text::char_count(self.edit_buf().as_str());
        self.edit_cursor = len;
    }

    #[verifier::spinoff_prover]
    #[verifier::rlimit(100)]
    fn edit_backspace(&mut self)
        ensures
            final(self)@ == edit_backspace(old(self)@),
            final(self).bookmarks_path == old(self).bookmarks_path,
    {
        let ghost s0 = self@;
        proof {
            lemma_backspace(s0, edit_buf(s0).remove(edit_pos(s0) - 1));
        }
        if self.edit_cursor == 0 {
            return;
        }
        let len = crate::text::char_count(self.edit_buf().as_str());
        let p = if self.edit_cursor < len { self.edit_cursor } else { len };
        assert(p as int == edit_pos(s0));
        let c = self.edit_cursor - 1;
        if p > 0 {
            let b = crate::text::remove_char(self.edit_buf().as_str(), p - 1);
            self.set_edit_buf(b);
            self.set_edit_cursor(c);
        } else {
            self.set_edit_cursor(c);
        }
    }

    /// Moves the cursor of the edit popup.
    fn set_edit_cursor(&mut self, c: usize)
        ensures
            final(self)@ == (AppState { edit_cursor: c, ..old(self)@ }),
            final(self).bookmarks_path == old(self).bookmarks_path,
    {
        self.edit_cursor = c;
    }

    /// Replaces the staged file edits.
    fn set_staged_edits(&mut self, v: Vec<FileEdit>)
        ensures
            final(self)@ == (AppState { staged_edits: edits_model(v@), ..old(self)@ }),
            final(self).bookmarks_path == old(self).bookmarks_path,
    {
        self.staged_edits = v;
    }

    fn edit_delete(&mut self)
        ensures
            final(self)@ == edit_delete(old(self)@),
            final(self).bookmarks_path == old(self).bookmarks_path,
    {
        let len = crate::text::char_count(self.edit_buf().as_str());
        if self.edit_cursor < len {
            let b = crate::text::remove_char(self.edit_buf().as_str(), self.edit_cursor);
            self.set_edit_buf(b);
        }
    }

    fn edit_insert(&mut self, c: char)
        requires
            old(self).edit_cursor < usize::MAX,
        ensures
            final(self)@ == edit_insert(old(self)@, c),
            final(self).bookmarks_path == old(self).bookmarks_path,
    {
        let len = crate::text::char_count(self.edit_buf().as_str());
        let p = if self.edit_cursor < len { self.edit_cursor } else { len };
        let b = crate::text::insert_char(self.edit_buf().as_str(), p, c);
        self.set_edit_buf(b);
        self.edit_cursor = self.edit_cursor + 1;
    }

    #[verifier::spinoff_prover]
    #[verifier::rlimit(60)]
    fn handle_edit_key(&mut self, key: &KeyInput)
        requires
            key.code is Char ==> old(self).edit_cursor < usize::MAX,
        ensures
            final(self)@ == edit_key(old(self)@, *key),
            final(self).bookmarks_path == old(self).bookmarks_path,
    {
        match key.code {
            Key::Esc => {
                self.edit_mode = false;
            },
            Key::Tab => {
                self.edit_field = match self.edit_field {
                    EditField::Folder => EditField::Name,
                    EditField::Name => EditField::Url,
                    EditField::Url => EditField::Folder,
                };
            },
            Key::BackTab => self.edit_back_tab(),
            Key::Left => {
                self.edit_cursor = self.edit_cursor.saturating_sub(1);
            },
            Key::Right => {
                let len = crate::text::char_count(self.edit_buf().as_str());
                if self.edit_cursor < len {
                    self.edit_cursor = self.edit_cursor + 1;
                }
            },
            Key::Home => {
                self.edit_cursor = 0;
            },
            Key::End => {
                self.edit_cursor = crate::text::char_count(self.edit_buf().as_str());
            },
            Key::Backspace => self.edit_backspace(),
            Key::Delete => self.edit_delete(),
            Key::Char(c) => self.edit_insert(c),
            _ => {},
        }
    }
}


// ---------------------------------------------------------------------------
// Marking rows

/// The position in `results` of the highlighted row, when it is a visible row.
pub open spec fn selected_row(s: AppState) -> Option<int> {
    match s.selected {
        Some(i) => if i < row_count(s) {
            Some(visible_rows(s)[i as int])
        } else {
            None
        },
        None => None,
    }
}

/// Marking or unmarking one URL.
pub open spec fn toggled_url(sel: Seq<Seq<char>>, u: Seq<char>) -> Seq<Seq<char>> {
    if sel.contains(u) {
        crate::tree::without(sel, in_urls(seq![u]))
    } else {
        sel.push(u)
    }
}

/// Space: marks or unmarks the highlighted row's URL and moves down a row.
pub open spec fn toggle_select(s: AppState) -> AppState {
    match s.selected {
        None => s,
        Some(i) => scrolled_down(
            match selected_row(s) {
                Some(r) => AppState { selected_urls: toggled_url(s.selected_urls, s.results[r].url), ..s },
                None => s,
            },
        ),
    }
}

/// The URLs of the visible rows, in display order.
pub open spec fn visible_urls(s: AppState) -> Seq<Seq<char>> {
    Seq::new(row_count(s) as nat, |k: int| s.results[visible_rows(s)[k]].url)
}

/// `sel` with each of `urls[..n]` added when not already there.
pub open spec fn added_urls(sel: Seq<Seq<char>>, urls: Seq<Seq<char>>, n: int) -> Seq<Seq<char>>
    decreases n,
{
    if n <= 0 {
        sel
    } else {
        let t = added_urls(sel, urls, n - 1);
        if t.contains(urls[n - 1]) {
            t
        } else {
            t.push(urls[n - 1])
        }
    }
}

/// The string is one of `urls`.
pub open spec fn in_urls(urls: Seq<Seq<char>>) -> spec_fn(Seq<char>) -> bool {
    |x: Seq<char>| urls.contains(x)
}

/// V: when every visible row is marked, unmarks them all; otherwise marks them all.
pub open spec fn toggle_select_all(s: AppState) -> AppState {
    let urls = visible_urls(s);
    if forall|k: int| 0 <= k < urls.len() ==> s.selected_urls.contains(#[trigger] urls[k]) {
        AppState { selected_urls: crate::tree::without(s.selected_urls, in_urls(urls)), ..s }
    } else {
        AppState { selected_urls: added_urls(s.selected_urls, urls, urls.len() as int), ..s }
    }
}

/// Whether the URL is among the marked ones.
fn contains_url(v: &Vec<String>, u: &str) -> (r: bool)
    ensures
        r == strs(v@).contains(u@),
{
    let mut i: usize = 0;
    while i < v.len()
        invariant
            i <= v@.len(),
            forall|j: int| 0 <= j < i ==> strs(v@)[j] != u@,
        decreases v.len() - i,
    {
        if crate::text::str_eq(v[i].as_str(), u) {
            assert(strs(v@)[i as int] == u@);
            return true;
        }
        i = i + 1;
    }
    false
}

/// The strings of `v` that are not among `urls`, in order.
fn retain_strings(v: Vec<String>, urls: &Vec<String>) -> (r: Vec<String>)
    ensures
        strs(r@) == crate::tree::without(strs(v@), in_urls(strs(urls@))),
{
    let ghost s = strs(v@);
    let mut out: Vec<String> = Vec::new();
    let mut n: usize = 0;
    let len = v.len();
    for x in it: v.into_iter()
        invariant
            s == strs(it.seq()),
            it.seq().len() == len,
            n == it.index(),
            strs(out@) == crate::tree::kept(s, in_urls(strs(urls@)), n as int),
    {
        assert(x@ == s[n as int]);
        let ghost before = out@;
        if !contains_url(urls, x.as_str()) {
            out.push(x);
            assert(strs(out@) =~= strs(before).push(s[n as int]));
        }
        assert(n < len);
        n = n + 1;
    }
    out
}

impl App {
    /// The position in `results` of the highlighted row, when visible.
    fn selected_index(&self) -> (r: Option<usize>)
        ensures
            r matches Some(k) ==> selected_row(self@) == Some(k as int),
            r is None ==> selected_row(self@) is None,
            r matches Some(k) ==> k < self.results@.len(),
    {
        let idx = match self.selected {
            Some(i) => i,
            None => return None,
        };
        let rows = self.visible_indices();
        let _n = self.results.len();
        proof {
            lemma_visible_rows(self@);
        }
        if idx < rows.len() {
            Some(rows[idx])
        } else {
            None
        }
    }

    fn toggle_select(&mut self)
        ensures
            final(self)@ == toggle_select(old(self)@),
            final(self).bookmarks_path == old(self).bookmarks_path,
    {
        if self.selected.is_none() {
            return;
        }
        match self.selected_index() {
            Some(r) => {
                let url = owned(self.results[r].url.as_str());
                assert(self@.results[r as int].url == url@);
                if contains_url(&self.selected_urls, url.as_str()) {
                    let removed = vec![url];
                    let mut sel: Vec<String> = Vec::new();
                    std::mem::swap(&mut sel, &mut self.selected_urls);
                    let ghost old_sel = strs(sel@);
                    let kept = retain_strings(sel, &removed);
                    assert(strs(removed@) =~= seq![url@]);
                    self.selected_urls = kept;
                } else {
                    let ghost before = self.selected_urls@;
                    self.selected_urls.push(url);
                    assert(strs(self.selected_urls@) =~= strs(before).push(url@));
                }
            },
            None => {},
        }
        self.scroll_down();
    }
}

impl App {
    /// The URLs of the visible rows, in display order.
    fn visible_url_list(&self) -> (r: Vec<String>)
        ensures
            strs(r@) == visible_urls(self@),
    {
        let rows = self.visible_indices();
        let _n = self.results.len();
        proof {
            lemma_visible_rows(self@);
        }
        let mut out: Vec<String> = Vec::new();
        let mut k: usize = 0;
        while k < rows.len()
            invariant
                rows@.len() == row_count(self@),
                forall|j: int| 0 <= j < rows@.len() ==> #[trigger] rows@[j] as int == visible_rows(self@)[j],
                forall|j: int| 0 <= j < row_count(self@) ==> 0 <= #[trigger] visible_rows(self@)[j] < self@.results.len(),
                k <= rows@.len(),
                strs(out@) == visible_urls(self@).take(k as int),
            decreases rows.len() - k,
        {
            assert(rows@[k as int] as int == visible_rows(self@)[k as int]);
            let ghost before = out@;
            let u = owned(self.results[rows[k]].url.as_str());
            assert(u@ == visible_urls(self@)[k as int]);
            out.push(u);
            assert(strs(out@) =~= strs(before).push(u@));
            k = k + 1;
            assert(strs(out@) =~= visible_urls(self@).take(k as int));
        }
        assert(visible_urls(self@).take(k as int) =~= visible_urls(self@));
        out
    }

    fn toggle_select_all(&mut self)
        ensures
            final(self)@ == toggle_select_all(old(self)@),
            final(self).bookmarks_path == old(self).bookmarks_path,
    {
        let ghost s0 = self@;
        let urls = self.visible_url_list();
        let ghost us = strs(urls@);
        let mut all = true;
        let mut i: usize = 0;
        while i < urls.len()
            invariant
                us == strs(urls@),
                us == visible_urls(s0),
                s0 == self@,
                i <= urls@.len(),
                all == (forall|k: int| 0 <= k < i ==> s0.selected_urls.contains(#[trigger] us[k])),
            decreases urls.len() - i,
        {
            let c = contains_url(&self.selected_urls, urls[i].as_str());
            assert(us[i as int] == urls@[i as int]@);
            if !c {
                all = false;
            }
            i = i + 1;
        }
        let mut sel: Vec<String> = Vec::new();
        std::mem::swap(&mut sel, &mut self.selected_urls);
        if all {
            let kept = retain_strings(sel, &urls);
            self.selected_urls = kept;
        } else {
            let mut j: usize = 0;
            assert(strs(sel@) == added_urls(s0.selected_urls, us, 0));
            while j < urls.len()
                invariant
                    us == strs(urls@),
                    j <= urls@.len(),
                    strs(sel@) == added_urls(s0.selected_urls, us, j as int),
                decreases urls.len() - j,
            {
                let u = urls[j].as_str();
                assert(us[j as int] == u@);
                if !contains_url(&sel, u) {
                    let ghost before = sel@;
                    sel.push(owned(u));
                    assert(strs(sel@) =~= strs(before).push(u@));
                }
                j = j + 1;
            }
            self.selected_urls = sel;
        }
    }
}

// ---------------------------------------------------------------------------
// Editing and deleting, once Chrome is known not to run

/// Opens the edit popup on the highlighted row: the fields hold its folder, name
/// and URL, the cursor stands at the end of the folder.
pub open spec fn entered_edit(s: AppState) -> AppState {
    match selected_row(s) {
        Some(r) => {
            let e = s.results[r];
            AppState {
                edit_cursor: e.folder.len() as usize,
                edit_folder: e.folder,
                edit_name: e.name,
                edit_url: e.url,
                edit_original_url: e.url,
                edit_original_folder: e.folder,
                edit_field: EditField::Folder,
                edit_mode: true,
                ..s
            }
        },
        None => s,
    }
}

/// Asks to confirm a deletion: of the marked URLs when there are any (the popup
/// says how many), otherwise of the highlighted row.
pub open spec fn delete_asked(s: AppState) -> AppState {
    if s.selected_urls.len() > 0 {
        AppState {
            delete_target_url: crate::text::decimal(s.selected_urls.len()) + " bookmarks selected"@,
            confirm_delete: true,
            ..s
        }
    } else {
        match selected_row(s) {
            Some(r) => AppState { delete_target_url: s.results[r].url, confirm_delete: true, ..s },
            None => s,
        }
    }
}

/// The answer to "is Chrome running?": when it runs, a warning instead.
pub open spec fn chrome_checked(s: AppState, gate: ChromeGate, running: bool) -> AppState {
    if running {
        AppState { chrome_warning: true, ..s }
    } else {
        match gate {
            ChromeGate::Edit => entered_edit(s),
            ChromeGate::Delete => delete_asked(s),
        }
    }
}

/// The result has URL `u`.
pub open spec fn result_url_is(u: Seq<char>) -> spec_fn(ResultView) -> bool {
    |r: ResultView| r.url == u
}

/// The file edit that deletes one entry: an empty-folder entry (URL starting
/// with `folder://`) deletes the folder recorded in the first result with that
/// URL, if any; anything else deletes the bookmarks for the URL.
pub open spec fn edits_for(results: Seq<ResultView>, u: Seq<char>) -> Seq<EditView> {
    if "folder://"@.len() <= u.len() && u.subrange(0, "folder://"@.len() as int) == "folder://"@ {
        if crate::json::any(results, result_url_is(u)) {
            let r = results[crate::json::first(results, result_url_is(u))];
            seq![EditView::DeleteEmptyFolder(r.folder, r.name)]
        } else {
            Seq::empty()
        }
    } else {
        seq![EditView::DeleteBookmark(u)]
    }
}

/// The file edits that delete `urls[..n]`, in order.
pub open spec fn delete_edits(results: Seq<ResultView>, urls: Seq<Seq<char>>, n: int) -> Seq<EditView>
    decreases n,
{
    if n <= 0 {
        Seq::empty()
    } else {
        delete_edits(results, urls, n - 1) + edits_for(results, urls[n - 1])
    }
}

/// The result's URL is one of `urls`.
pub open spec fn result_in(urls: Seq<Seq<char>>) -> spec_fn(ResultView) -> bool {
    |r: ResultView| urls.contains(r.url)
}

/// Saturating subtraction.
pub open spec fn sat_sub(a: usize, b: int) -> usize {
    if a >= b {
        (a - b) as usize
    } else {
        0usize
    }
}

/// The state after the entries for `urls` are deleted: they leave the results
/// and the total, the marks and the question are cleared.
pub open spec fn after_delete(s: AppState, urls: Seq<Seq<char>>) -> AppState {
    AppState {
        results: crate::tree::without(s.results, result_in(urls)),
        total: sat_sub(s.total, urls.len() as int),
        selected_urls: Seq::empty(),
        delete_target_url: Seq::empty(),
        ..s
    }
}

/// After a deletion the highlight stays on row `idx` unless it fell past the last
/// row; with no rows left nothing is highlighted.
pub open spec fn reselected(s: AppState, idx: int) -> AppState {
    let len = row_count(s);
    if len > 0 {
        if idx >= len {
            with_selected(s, Some((len - 1) as usize))
        } else {
            s
        }
    } else {
        with_selected(s, None)
    }
}

/// The URLs a confirmed deletion removes: the marked ones, or else the one asked about.
pub open spec fn urls_to_delete(s: AppState) -> Seq<Seq<char>> {
    if s.selected_urls.len() > 0 {
        s.selected_urls
    } else {
        seq![s.delete_target_url]
    }
}

/// `s` with the file edits that delete `urls` added to the staged edits.
pub open spec fn with_staged(s: AppState, urls: Seq<Seq<char>>) -> AppState {
    AppState { staged_edits: s.staged_edits + delete_edits(s.results, urls, urls.len() as int), ..s }
}

/// `y` on the confirmation: stages the deletion of the marked URLs, or else of
/// the one asked about: the file edits that delete them join the staged edits,
/// to be written by `:w`, and their entries leave the table (see
/// [`after_delete`] and [`reselected`]). Nothing happens when nothing was asked.
pub open spec fn deleted_state(s: AppState) -> AppState {
    if s.delete_target_url.len() == 0 {
        AppState { delete_target_url: Seq::empty(), ..s }
    } else {
        let idx: int = match s.selected {
            Some(i) => i as int,
            None => 0,
        };
        reselected(after_delete(with_staged(s, urls_to_delete(s)), urls_to_delete(s)), idx)
    }
}

/// Enter in the edit popup: the first result with the original URL takes the
/// edited folder, name and URL; the file gets the rename and, when the folder
/// changed, the move; the popup closes.
pub open spec fn saved_state(s: AppState) -> (AppState, ActionView) {
    let orig = s.edit_original_url;
    let results = if crate::json::any(s.results, result_url_is(orig)) {
        let k = crate::json::first(s.results, result_url_is(orig));
        s.results.update(
            k,
            ResultView { folder: s.edit_folder, name: s.edit_name, url: s.edit_url, ..s.results[k] },
        )
    } else {
        s.results
    };
    let edits = seq![EditView::Update(orig, s.edit_name, s.edit_url)] + if s.edit_original_folder
        != s.edit_folder {
        seq![EditView::Move(s.edit_url, s.edit_folder)]
    } else {
        Seq::empty()
    };
    (AppState { results, edit_mode: false, ..s }, ActionView::Save(edits))
}

/// The first result with URL `u`, if any.
fn find_result(results: &Vec<CheckResult>, u: &str) -> (r: Option<usize>)
    ensures
        r matches Some(k) ==> crate::json::is_first(results_model(results@), result_url_is(u@), k as int),
        r is None ==> !crate::json::any(results_model(results@), result_url_is(u@)),
{
    let ghost rs = results_model(results@);
    let mut i: usize = 0;
    while i < results.len()
        invariant
            rs == results_model(results@),
            i <= results@.len(),
            forall|j: int| 0 <= j < i ==> !result_url_is(u@)(#[trigger] rs[j]),
        decreases results.len() - i,
    {
        if crate::text::str_eq(results[i].url.as_str(), u) {
            return Some(i);
        }
        i = i + 1;
    }
    None
}

/// The file edits that delete `u` (see [`edits_for`]).
fn edits_for_url(results: &Vec<CheckResult>, u: &str, out: &mut Vec<FileEdit>)
    ensures
        edits_model(final(out)@) == edits_model(old(out)@) + edits_for(results_model(results@), u@),
{
    let ghost rs = results_model(results@);
    let ghost start = out@;
    proof {
        reveal_strlit("folder://");
    }
    if crate::text::starts_with(u, "folder://") {
        match find_result(results, u) {
            Some(k) => {
                proof {
                    crate::json::lemma_first_unique(rs, result_url_is(u@), k as int);
                }
                let r = &results[k];
                out.push(FileEdit::DeleteEmptyFolder { parent: owned(r.folder.as_str()), name: owned(r.name.as_str()) });
            },
            None => {},
        }
    } else {
        out.push(FileEdit::DeleteBookmark { url: owned(u) });
    }
    assert(edits_model(out@) =~= edits_model(start) + edits_for(rs, u@));
}

/// Keeps the results whose URL is not among `urls`.
fn retain_results(v: Vec<CheckResult>, urls: &Vec<String>) -> (r: Vec<CheckResult>)
    ensures
        results_model(r@) == crate::tree::without(results_model(v@), result_in(strs(urls@))),
{
    let ghost s = results_model(v@);
    let mut out: Vec<CheckResult> = Vec::new();
    let mut n: usize = 0;
    let len = v.len();
    for x in it: v.into_iter()
        invariant
            s == results_model(it.seq()),
            it.seq().len() == len,
            n == it.index(),
            results_model(out@) == crate::tree::kept(s, result_in(strs(urls@)), n as int),
    {
        assert(x@ == s[n as int]);
        let ghost before = out@;
        if !contains_url(urls, x.url.as_str()) {
            out.push(x);
            assert(results_model(out@) =~= results_model(before).push(s[n as int]));
        }
        assert(n < len);
        n = n + 1;
    }
    out
}

impl App {
    #[verifier::spinoff_prover]
    fn enter_edit_mode(&mut self)
        ensures
            final(self)@ == entered_edit(old(self)@),
            final(self).bookmarks_path == old(self).bookmarks_path,
    {
        match self.selected_index() {
            Some(r) => {
                let folder = owned(self.results[r].folder.as_str());
                let name = owned(self.results[r].name.as_str());
                let url = owned(self.results[r].url.as_str());
                self.edit_cursor = crate::text::char_count(folder.as_str());
                self.edit_original_folder = owned(folder.as_str());
                self.edit_folder = folder;
                self.edit_name = name;
                self.edit_original_url = owned(url.as_str());
                self.edit_url = url;
                self.edit_field = EditField::Folder;
                self.edit_mode = true;
            },
            None => {},
        }
    }

    #[verifier::spinoff_prover]
    fn confirm_delete_selected(&mut self)
        ensures
            final(self)@ == delete_asked(old(self)@),
            final(self).bookmarks_path == old(self).bookmarks_path,
    {
        if self.selected_urls.len() > 0 {
            let count = crate::text::format_decimal(self.selected_urls.len());
            self.delete_target_url = crate::text::concat(count.as_str(), " bookmarks selected");
            self.confirm_delete = true;
            return;
        }
        match self.selected_index() {
            Some(r) => {
                self.delete_target_url = owned(self.results[r].url.as_str());
                self.confirm_delete = true;
            },
            None => {},
        }
    }

    /// The answer to the question an [`Action::CheckChrome`] asked (see
    /// [`chrome_checked`]).
    pub fn chrome_checked(&mut self, gate: ChromeGate, running: bool)
        ensures
            final(self)@ == chrome_checked(old(self)@, gate, running),
            final(self).bookmarks_path == old(self).bookmarks_path,
    {
        if running {
            self.chrome_warning = true;
            return;
        }
        match gate {
            ChromeGate::Edit => self.enter_edit_mode(),
            ChromeGate::Delete => self.confirm_delete_selected(),
        }
    }
}

impl App {
    /// Removes the entries for `urls` (see [`after_delete`]).
    #[verifier::spinoff_prover]
    fn remove_entries(&mut self, urls: &Vec<String>)
        ensures
            final(self)@ == after_delete(old(self)@, strs(urls@)),
            final(self).bookmarks_path == old(self).bookmarks_path,
    {
        let mut results: Vec<CheckResult> = Vec::new();
        std::mem::swap(&mut results, &mut self.results);
        self.results = retain_results(results, urls);
        self.total = self.total.saturating_sub(urls.len());
        self.selected_urls = Vec::new();
        self.delete_target_url = String::new();
        assert(strs(self.selected_urls@) =~= Seq::<Seq<char>>::empty());
    }

    /// Keeps the highlight within the rows (see [`reselected`]).
    #[verifier::spinoff_prover]
    fn reselect(&mut self, idx: usize)
        ensures
            final(self)@ == reselected(old(self)@, idx as int),
            final(self).bookmarks_path == old(self).bookmarks_path,
    {
        let len = self.row_count();
        if len > 0 {
            if idx >= len {
                self.selected = Some(len - 1);
            }
        } else {
            self.selected = None;
        }
    }

    /// The URLs a confirmed deletion removes (see [`urls_to_delete`]).
    fn urls_for_deletion(&self) -> (r: Vec<String>)
        ensures
            strs(r@) == urls_to_delete(self@),
    {
        if self.selected_urls.len() > 0 {
            let mut v: Vec<String> = Vec::new();
            let mut i: usize = 0;
            while i < self.selected_urls.len()
                invariant
                    i <= self.selected_urls@.len(),
                    strs(v@) == strs(self.selected_urls@).take(i as int),
                decreases self.selected_urls.len() - i,
            {
                let ghost before = v@;
                let u = owned(self.selected_urls[i].as_str());
                assert(u@ == strs(self.selected_urls@)[i as int]);
                v.push(u);
                assert(strs(v@) =~= strs(before).push(u@));
                i = i + 1;
                assert(strs(v@) =~= strs(self.selected_urls@).take(i as int));
            }
            assert(strs(self.selected_urls@).take(i as int) =~= strs(self.selected_urls@));
            v
        } else {
            let v = vec![owned(self.delete_target_url.as_str())];
            assert(strs(v@) =~= seq![self@.delete_target_url]);
            v
        }
    }

    /// Adds the file edits that delete `urls` to the staged edits.
    #[verifier::spinoff_prover]
    fn stage_deletions(&mut self, urls: &Vec<String>)
        ensures
            final(self)@ == with_staged(old(self)@, strs(urls@)),
            final(self).bookmarks_path == old(self).bookmarks_path,
    {
        let ghost s = self@;
        let ghost us = strs(urls@);
        let mut edits: Vec<FileEdit> = Vec::new();
        std::mem::swap(&mut edits, &mut self.staged_edits);
        let mut i: usize = 0;
        assert(edits_model(edits@) =~= s.staged_edits + delete_edits(s.results, us, 0));
        while i < urls.len()
            invariant
                us == strs(urls@),
                results_model(self.results@) == s.results,
                i <= urls@.len(),
                edits_model(edits@) == s.staged_edits + delete_edits(s.results, us, i as int),
            decreases urls.len() - i,
        {
            assert(us[i as int] == urls@[i as int]@);
            edits_for_url(&self.results, urls[i].as_str(), &mut edits);
            i = i + 1;
            assert(edits_model(edits@) =~= s.staged_edits + delete_edits(s.results, us, i as int));
        }
        self.staged_edits = edits;
    }

    #[verifier::spinoff_prover]
    fn do_delete(&mut self)
        ensures
            final(self)@ == deleted_state(old(self)@),
            final(self).bookmarks_path == old(self).bookmarks_path,
    {
        if self.delete_target_url.as_str().is_empty() {
            self.delete_target_url = String::new();
            return;
        }
        let idx = match self.selected {
            Some(i) => i,
            None => 0,
        };
        let urls = self.urls_for_deletion();
        self.stage_deletions(&urls);
        self.remove_entries(&urls);
        self.reselect(idx);
    }

    #[verifier::spinoff_prover]
    fn save_edit(&mut self) -> (r: Action)
        ensures
            (final(self)@, r@) == saved_state(old(self)@),
            final(self).bookmarks_path == old(self).bookmarks_path,
    {
        let ghost s = self@;
        match find_result(&self.results, self.edit_original_url.as_str()) {
            Some(k) => {
                proof {
                    crate::json::lemma_first_unique(s.results, result_url_is(s.edit_original_url), k as int);
                }
                let folder = owned(self.edit_folder.as_str());
                let name = owned(self.edit_name.as_str());
                let url = owned(self.edit_url.as_str());
                let ghost before = self.results@;
                let slot = &mut self.results[k];
                slot.folder = folder;
                slot.name = name;
                slot.url = url;
                assert(results_model(self.results@) =~= s.results.update(
                    k as int,
                    ResultView { folder: s.edit_folder, name: s.edit_name, url: s.edit_url, ..s.results[k as int] },
                ));
            },
            None => {},
        }
        let mut edits: Vec<FileEdit> = Vec::new();
        edits.push(
            FileEdit::Update {
                original_url: owned(self.edit_original_url.as_str()),
                new_name: owned(self.edit_name.as_str()),
                new_url: owned(self.edit_url.as_str()),
            },
        );
        if !crate::text::str_eq(self.edit_original_folder.as_str(), self.edit_folder.as_str()) {
            edits.push(FileEdit::Move { url: owned(self.edit_url.as_str()), folder: owned(self.edit_folder.as_str()) });
        }
        self.edit_mode = false;
        assert(edits_model(edits@) =~= saved_state(s).1->Save_0);
        Action::Save(edits)
    }
    /// The URL of the highlighted row, when it is a visible row.
    pub fn selected_url(&self) -> (r: Option<String>)
        ensures
            r matches Some(u) ==> selected_row(self@) matches Some(k) && u@ == self@.results[k].url,
            r is None ==> selected_row(self@) is None,
    {
        match self.selected_index() {
            Some(k) => Some(owned(self.results[k].url.as_str())),
            None => None,
        }
    }
}

// ---------------------------------------------------------------------------
// One key press

/// A character typed on the results table (no popup, no search, nothing pending).
pub open spec fn char_key(s: AppState, c: char, ctrl: bool) -> (AppState, ActionView) {
    if c == 'q' {
        (s, ActionView::Quit)
    } else if c == 'k' {
        (scrolled_up(s), ActionView::Nothing)
    } else if c == 'j' {
        (scrolled_down(s), ActionView::Nothing)
    } else if c == 'd' && ctrl {
        (paged_down(s), ActionView::Nothing)
    } else if c == 'u' && ctrl {
        (paged_up(s), ActionView::Nothing)
    } else if c == 'd' {
        (AppState { pending_d: true, ..s }, ActionView::Nothing)
    } else if c == 'g' {
        (with_selected(s, Some(0usize)), ActionView::Nothing)
    } else if c == 'G' {
        (at_bottom(s), ActionView::Nothing)
    } else if c == 's' {
        (sorted_by(s, SortMode::Status), ActionView::Nothing)
    } else if c == 'f' {
        (sorted_by(s, SortMode::Folder), ActionView::Nothing)
    } else if c == 'n' {
        (sorted_by(s, SortMode::Name), ActionView::Nothing)
    } else if c == 'u' {
        (sorted_by(s, SortMode::Url), ActionView::Nothing)
    } else if c == ' ' {
        (toggle_select(s), ActionView::Nothing)
    } else if c == 'V' {
        (toggle_select_all(s), ActionView::Nothing)
    } else if c == 'o' {
        (
            s,
            match selected_row(s) {
                Some(r) => ActionView::OpenUrl(s.results[r].url),
                None => ActionView::Nothing,
            },
        )
    } else if c == 'e' {
        (s, ActionView::CheckChrome(ChromeGate::Edit))
    } else if c == '/' {
        (AppState { search_mode: true, search_query: Seq::empty(), ..s }, ActionView::Nothing)
    } else if c == 'r' {
        (AppState { refresh_requested: true, ..s }, ActionView::Nothing)
    } else if c == ':' {
        (AppState { pending_colon: true, ..s }, ActionView::Nothing)
    } else {
        (s, ActionView::Nothing)
    }
}

/// A key on the results table (no popup, no search, nothing pending): Esc clears
/// a search, the arrows and page keys move the highlight, characters are
/// commands (see [`char_key`]).
pub open spec fn table_key(s: AppState, k: KeyInput) -> (AppState, ActionView) {
    match k.code {
        Key::Esc => (
            if s.search_query.len() > 0 {
                AppState { search_query: Seq::empty(), selected: Some(0usize), ..s }
            } else {
                s
            },
            ActionView::Nothing,
        ),
        Key::Up => (scrolled_up(s), ActionView::Nothing),
        Key::Down => (scrolled_down(s), ActionView::Nothing),
        Key::PageDown => (paged_down(s), ActionView::Nothing),
        Key::PageUp => (paged_up(s), ActionView::Nothing),
        Key::Char(c) => char_key(s, c, k.ctrl),
        _ => (s, ActionView::Nothing),
    }
}

/// The key after a `d`: a second `d` asks to delete (once Chrome is known not to
/// run), Ctrl+d pages down, anything else only forgets the `d`.
pub open spec fn after_d(s: AppState, k: KeyInput) -> (AppState, ActionView) {
    let t = AppState { pending_d: false, ..s };
    if k.code == Key::Char('d') && !k.ctrl {
        (t, ActionView::CheckChrome(ChromeGate::Delete))
    } else if k.code == Key::Char('d') && k.ctrl {
        (paged_down(t), ActionView::Nothing)
    } else {
        (t, ActionView::Nothing)
    }
}

/// The key types a character into an edit field, moving the cursor on by one.
pub open spec fn inserts_text(s: AppState, k: KeyInput) -> bool {
    &&& s.popup_message is None
    &&& !s.chrome_warning
    &&& !s.confirm_delete
    &&& s.edit_mode
    &&& k.code is Char
    &&& !(k.ctrl && k.code == Key::Char('s'))
}

/// What one key press does to the screen, and what the caller is to do then.
/// A message popup or the Chrome warning takes any key to close; the delete
/// confirmation takes `y` to stage the deletion and any other key to cancel;
/// the edit popup, the search line, a pending `:` and a pending `d` take keys
/// before the table does.
pub open spec fn key_step(s: AppState, k: KeyInput) -> (AppState, ActionView) {
    if s.popup_message is Some {
        (AppState { popup_message: None, ..s }, ActionView::Nothing)
    } else if s.chrome_warning {
        (AppState { chrome_warning: false, ..s }, ActionView::Nothing)
    } else if s.confirm_delete {
        let t = AppState { confirm_delete: false, ..s };
        if k.code == Key::Char('y') {
            (deleted_state(t), ActionView::Nothing)
        } else {
            (AppState { delete_target_url: Seq::empty(), ..t }, ActionView::Nothing)
        }
    } else if s.edit_mode {
        if k.code == Key::Enter {
            saved_state(s)
        } else if k.code == Key::Char('s') && k.ctrl {
            saved_keeping_popup(s)
        } else {
            (edit_key(s, k), ActionView::Nothing)
        }
    } else if s.search_mode {
        (search_key(s, k), ActionView::Nothing)
    } else if s.pending_colon {
        after_colon(s, k)
    } else if s.pending_d {
        after_d(s, k)
    } else {
        table_key(s, k)
    }
}

/// Ctrl+s in the edit popup: saves as Enter does (see [`saved_state`]) but keeps
/// the popup open on the edited bookmark, whose saved folder and URL are now the
/// ones a further save starts from.
pub open spec fn saved_keeping_popup(s: AppState) -> (AppState, ActionView) {
    let (t, a) = saved_state(s);
    (AppState { edit_mode: true, edit_original_url: s.edit_url, edit_original_folder: s.edit_folder, ..t }, a)
}

/// The key after a `:`: `w` writes the staged deletions (and exports); any other
/// key forgets the `:` and then acts as it would have without it.
pub open spec fn after_colon(s: AppState, k: KeyInput) -> (AppState, ActionView) {
    let t = AppState { pending_colon: false, ..s };
    if k.code == Key::Char('w') {
        (AppState { staged_edits: Seq::empty(), ..t }, ActionView::Save(s.staged_edits))
    } else if t.pending_d {
        after_d(t, k)
    } else {
        table_key(t, k)
    }
}

impl App {
    #[verifier::spinoff_prover]
    #[verifier::rlimit(50)]
    fn char_key(&mut self, c: char, ctrl: bool) -> (r: Action)
        ensures
            (final(self)@, r@) == char_key(old(self)@, c, ctrl),
            final(self).bookmarks_path == old(self).bookmarks_path,
    {
        if c == 'q' {
            Action::Quit
        } else if c == 'k' {
            self.scroll_up();
            Action::Nothing
        } else if c == 'j' {
            self.scroll_down();
            Action::Nothing
        } else if c == 'd' && ctrl {
            self.page_down();
            Action::Nothing
        } else if c == 'u' && ctrl {
            self.page_up();
            Action::Nothing
        } else if c == 'd' {
            self.pending_d = true;
            Action::Nothing
        } else if c == 'g' {
            self.selected = Some(0);
            Action::Nothing
        } else if c == 'G' {
            self.go_bottom();
            Action::Nothing
        } else if c == 's' {
            self.set_sort_mode(SortMode::Status);
            Action::Nothing
        } else if c == 'f' {
            self.set_sort_mode(SortMode::Folder);
            Action::Nothing
        } else if c == 'n' {
            self.set_sort_mode(SortMode::Name);
            Action::Nothing
        } else if c == 'u' {
            self.set_sort_mode(SortMode::Url);
            Action::Nothing
        } else if c == ' ' {
            self.toggle_select();
            Action::Nothing
        } else if c == 'V' {
            self.toggle_select_all();
            Action::Nothing
        } else if c == 'o' {
            match self.selected_url() {
                Some(u) => Action::OpenUrl(u),
                None => Action::Nothing,
            }
        } else if c == 'e' {
            Action::CheckChrome(ChromeGate::Edit)
        } else if c == '/' {
            self.search_mode = true;
            self.search_query = String::new();
            Action::Nothing
        } else if c == 'r' {
            self.refresh_requested = true;
            Action::Nothing
        } else if c == ':' {
            self.pending_colon = true;
            Action::Nothing
        } else {
            Action::Nothing
        }
    }

    #[verifier::spinoff_prover]
    fn table_key(&mut self, key: &KeyInput) -> (r: Action)
        ensures
            (final(self)@, r@) == table_key(old(self)@, *key),
            final(self).bookmarks_path == old(self).bookmarks_path,
    {
        match key.code {
            Key::Esc => {
                if !self.search_query.as_str().is_empty() {
                    self.search_query = String::new();
                    self.selected = Some(0);
                }
                Action::Nothing
            },
            Key::Up => {
                self.scroll_up();
                Action::Nothing
            },
            Key::Down => {
                self.scroll_down();
                Action::Nothing
            },
            Key::PageDown => {
                self.page_down();
                Action::Nothing
            },
            Key::PageUp => {
                self.page_up();
                Action::Nothing
            },
            Key::Char(c) => self.char_key(c, key.ctrl),
            _ => Action::Nothing,
        }
    }

    #[verifier::spinoff_prover]
    fn after_d(&mut self, key: &KeyInput) -> (r: Action)
        ensures
            (final(self)@, r@) == after_d(old(self)@, *key),
            final(self).bookmarks_path == old(self).bookmarks_path,
    {
        self.pending_d = false;
        let is_d = match key.code {
            Key::Char(c) => c == 'd',
            _ => false,
        };
        if is_d && !key.ctrl {
            Action::CheckChrome(ChromeGate::Delete)
        } else if is_d && key.ctrl {
            self.page_down();
            Action::Nothing
        } else {
            Action::Nothing
        }
    }

    #[verifier::spinoff_prover]
    fn after_colon(&mut self, key: &KeyInput) -> (r: Action)
        ensures
            (final(self)@, r@) == after_colon(old(self)@, *key),
            final(self).bookmarks_path == old(self).bookmarks_path,
    {
        self.pending_colon = false;
        let is_w = match key.code {
            Key::Char(c) => c == 'w',
            _ => false,
        };
        if is_w {
            let mut staged: Vec<FileEdit> = Vec::new();
            std::mem::swap(&mut staged, &mut self.staged_edits);
            assert(edits_model(self.staged_edits@) =~= Seq::<EditView>::empty());
            Action::Save(staged)
        } else if self.pending_d {
            self.after_d(key)
        } else {
            self.table_key(key)
        }
    }

    #[verifier::spinoff_prover]
    fn save_keeping_popup(&mut self) -> (r: Action)
        ensures
            (final(self)@, r@) == saved_keeping_popup(old(self)@),
            final(self).bookmarks_path == old(self).bookmarks_path,
    {
        let r = self.save_edit();
        self.edit_mode = true;
        self.edit_original_url = owned(self.edit_url.as_str());
        self.edit_original_folder = owned(self.edit_folder.as_str());
        r
    }

    /// Handles one key press (see [`key_step`]) and says what the caller is to
    /// do next.
    #[verifier::spinoff_prover]
    #[verifier::rlimit(50)]
    pub fn handle_key(&mut self, key: &KeyInput) -> (r: Action)
        requires
            inserts_text(old(self)@, *key) ==> old(self).edit_cursor < usize::MAX,
        ensures
            (final(self)@, r@) == key_step(old(self)@, *key),
            final(self).bookmarks_path == old(self).bookmarks_path,
    {
        if self.popup_message.is_some() {
            self.popup_message = None;
            return Action::Nothing;
        }
        if self.chrome_warning {
            self.chrome_warning = false;
            return Action::Nothing;
        }
        if self.confirm_delete {
            self.confirm_delete = false;
            let is_y = match key.code {
                Key::Char(c) => c == 'y',
                _ => false,
            };
            if is_y {
                self.do_delete();
                return Action::Nothing;
            }
            self.delete_target_url = String::new();
            return Action::Nothing;
        }
        if self.edit_mode {
            if key.code == Key::Enter {
                return self.save_edit();
            }
            if key.ctrl && key.code == Key::Char('s') {
                return self.save_keeping_popup();
            }
            self.handle_edit_key(key);
            return Action::Nothing;
        }
        if self.search_mode {
            self.handle_search_key(key);
            return Action::Nothing;
        }
        if self.pending_colon {
            return self.after_colon(key);
        }
        if self.pending_d {
            return self.after_d(key);
        }
        self.table_key(key)
    }
}

// ---------------------------------------------------------------------------
// Progress of the check

/// A fresh check: no results, counters at zero, no sorting, search or marks,
/// the first row highlighted. Staged deletions are kept on purpose: they were
/// confirmed, and `:w` still writes them.
pub open spec fn reset_state(s: AppState) -> AppState {
    AppState {
        results: Seq::empty(),
        checked: 0,
        invalid: 0,
        checking_done: false,
        sort_mode: SortMode::Unsorted,
        sort_ascending: true,
        search_query: Seq::empty(),
        search_mode: false,
        refresh_requested: false,
        selected_urls: Seq::empty(),
        selected: Some(0usize),
        ..s
    }
}

/// One more result: it joins the results, `done` entries are checked, and an
/// invalid result counts once more.
pub open spec fn recorded(s: AppState, r: ResultView, done: usize) -> AppState {
    AppState {
        results: s.results.push(r),
        checked: done,
        invalid: if r.is_valid {
            s.invalid
        } else {
            (s.invalid + 1) as usize
        },
        ..s
    }
}

/// The message shown after the bookmarks were exported: where the file went, or
/// why the export failed.
pub open spec fn export_message(r: Result<Seq<char>, Seq<char>>) -> Seq<char> {
    match r {
        Ok(path) => "Bookmark file exported: "@ + path,
        Err(e) => "Export failed: "@ + e,
    }
}

/// The check is complete when `done` entries are checked, at least the screen's
/// total (which a restart sets to the fresh count), and no fresh check was asked
/// for.
pub open spec fn check_complete(s: AppState, done: usize) -> bool {
    done >= s.total && !s.refresh_requested
}

impl App {
    /// Forgets the results of the last check (see [`reset_state`]).
    pub fn reset(&mut self)
        ensures
            final(self)@ == reset_state(old(self)@),
            final(self).bookmarks_path == old(self).bookmarks_path,
    {
        self.results = Vec::new();
        self.checked = 0;
        self.invalid = 0;
        self.checking_done = false;
        self.sort_mode = SortMode::Unsorted;
        self.sort_ascending = true;
        self.search_query = String::new();
        self.search_mode = false;
        self.refresh_requested = false;
        self.selected_urls = Vec::new();
        self.selected = Some(0);
        assert(results_model(self.results@) =~= Seq::<ResultView>::empty());
        assert(strs(self.selected_urls@) =~= Seq::<Seq<char>>::empty());
    }

    /// Starts over on a bookmarks file of `total` entries at `path`.
    pub fn restart(&mut self, total: usize, path: PathBuf)
        ensures
            final(self)@ == reset_state(AppState { total, ..old(self)@ }),
            final(self).bookmarks_path == path,
    {
        self.bookmarks_path = path;
        self.total = total;
        self.reset();
    }

    /// Records one checked entry (see [`recorded`]).
    pub fn record_result(&mut self, result: CheckResult, done: usize)
        requires
            !result.is_valid ==> old(self).invalid < usize::MAX,
        ensures
            final(self)@ == recorded(old(self)@, result@, done),
            final(self).bookmarks_path == old(self).bookmarks_path,
    {
        let ghost before = self.results@;
        let valid = result.is_valid;
        self.results.push(result);
        assert(results_model(self.results@) =~= results_model(before).push(result@));
        self.checked = done;
        if !valid {
            self.invalid = self.invalid + 1;
        }
    }

    /// Shows how the export after a change of the bookmarks file went (see
    /// [`export_message`]).
    pub fn set_export_result(&mut self, exported: Result<String, String>)
        ensures
            final(self)@ == (AppState {
                popup_message: Some(
                    export_message(
                        match exported {
                            Ok(p) => Ok(p@),
                            Err(e) => Err(e@),
                        },
                    ),
                ),
                ..old(self)@
            }),
            final(self).bookmarks_path == old(self).bookmarks_path,
    {
        let msg = match exported {
            Ok(p) => crate::text::concat("Bookmark file exported: ", p.as_str()),
            Err(e) => crate::text::concat("Export failed: ", e.as_str()),
        };
        self.popup_message = Some(msg);
    }

    /// Marks the check finished when `done` reaches the screen's total and no
    /// fresh check was asked for (see [`check_complete`]); says whether it did.
    pub fn check_progress(&mut self, done: usize) -> (r: bool)
        ensures
            r == check_complete(old(self)@, done),
            final(self)@ == (if r {
                AppState { checking_done: true, ..old(self)@ }
            } else {
                old(self)@
            }),
            final(self).bookmarks_path == old(self).bookmarks_path,
    {
        if done >= self.total && !self.refresh_requested {
            self.checking_done = true;
            true
        } else {
            false
        }
    }
}

// ---------------------------------------------------------------------------
// Laws of the screen

/// No element occurs twice.
pub open spec fn no_dups<A>(s: Seq<A>) -> bool {
    forall|a: int, b: int| 0 <= a < b < s.len() ==> #[trigger] s[a] != #[trigger] s[b]
}

/// Filtering keeps only elements of the filtered prefix, and keeps them distinct.
proof fn lemma_kept_distinct<A>(s: Seq<A>, drop: spec_fn(A) -> bool, n: int)
    requires
        0 <= n <= s.len(),
    ensures
        forall|x: A| crate::tree::kept(s, drop, n).contains(x) ==> s.take(n).contains(x),
        no_dups(s) ==> no_dups(crate::tree::kept(s, drop, n)),
    decreases n,
{
    if n > 0 {
        lemma_kept_distinct(s, drop, n - 1);
        let r = crate::tree::kept(s, drop, n - 1);
        assert forall|x: A| s.take(n - 1).contains(x) implies s.take(n).contains(x) by {
            let j = choose|j: int| 0 <= j < n - 1 && #[trigger] s.take(n - 1)[j] == x;
            assert(s.take(n)[j] == x);
        }
        assert(s.take(n)[n - 1] == s[n - 1]);
        if !drop(s[n - 1]) {
            assert forall|x: A| r.push(s[n - 1]).contains(x) implies s.take(n).contains(x) by {
                if x != s[n - 1] {
                    let j = choose|j: int| 0 <= j < r.len() + 1 && #[trigger] r.push(s[n - 1])[j] == x;
                    assert(r[j] == x);
                    assert(r.contains(x));
                }
            }
            if no_dups(s) {
                if r.contains(s[n - 1]) {
                    assert(s.take(n - 1).contains(s[n - 1]));
                    let j = choose|j: int| 0 <= j < n - 1 && #[trigger] s.take(n - 1)[j] == s[n - 1];
                    assert(s[j] == s[n - 1]);
                }
                let p = r.push(s[n - 1]);
                assert forall|a: int, b: int| 0 <= a < b < p.len() implies #[trigger] p[a] != #[trigger] p[b] by {
                    if b == r.len() {
                        assert(r.contains(r[a]));
                    }
                }
            }
        }
    }
}

/// Marking or unmarking a URL keeps the marks distinct.
proof fn lemma_toggled_distinct(sel: Seq<Seq<char>>, u: Seq<char>)
    requires
        no_dups(sel),
    ensures
        no_dups(toggled_url(sel, u)),
{
    if sel.contains(u) {
        lemma_kept_distinct(sel, in_urls(seq![u]), sel.len() as int);
    } else {
        let p = sel.push(u);
        assert forall|a: int, b: int| 0 <= a < b < p.len() implies #[trigger] p[a] != #[trigger] p[b] by {
            if b == sel.len() {
                assert(sel.contains(sel[a]));
            }
        }
    }
}

/// Adding the URLs that are not yet marked keeps the marks distinct.
proof fn lemma_added_distinct(sel: Seq<Seq<char>>, urls: Seq<Seq<char>>, n: int)
    requires
        no_dups(sel),
    ensures
        no_dups(added_urls(sel, urls, n)),
    decreases n,
{
    if n > 0 {
        lemma_added_distinct(sel, urls, n - 1);
        let t = added_urls(sel, urls, n - 1);
        if !t.contains(urls[n - 1]) {
            let p = t.push(urls[n - 1]);
            assert forall|a: int, b: int| 0 <= a < b < p.len() implies #[trigger] p[a] != #[trigger] p[b] by {
                if b == t.len() {
                    assert(t.contains(t[a]));
                }
            }
        }
    }
}

/// A table command keeps the marks distinct.
proof fn lemma_char_key_distinct(s: AppState, c: char, ctrl: bool)
    requires
        no_dups(s.selected_urls),
    ensures
        no_dups(char_key(s, c, ctrl).0.selected_urls),
{
    let sel = s.selected_urls;
    if c == ' ' {
        match selected_row(s) {
            Some(r) => lemma_toggled_distinct(sel, s.results[r].url),
            None => {},
        }
    } else if c == 'V' {
        let urls = visible_urls(s);
        lemma_kept_distinct(sel, in_urls(urls), sel.len() as int);
        lemma_added_distinct(sel, urls, urls.len() as int);
    }
}

/// Keys in the edit popup leave the marks alone.
proof fn lemma_edit_keeps_marks(s: AppState, k: KeyInput)
    ensures
        edit_key(s, k).selected_urls == s.selected_urls,
        saved_state(s).0.selected_urls == s.selected_urls,
        saved_keeping_popup(s).0.selected_urls == s.selected_urls,
{
    lemma_backspace(s, edit_buf(s).remove(edit_pos(s) - 1));
}

/// The marks name each URL at most once, whatever key is pressed and whatever
/// the answer about Chrome.
#[verifier::spinoff_prover]
pub proof fn law_marks_stay_distinct(s: AppState, k: KeyInput, gate: ChromeGate, running: bool)
    requires
        no_dups(s.selected_urls),
    ensures
        no_dups(key_step(s, k).0.selected_urls),
        no_dups(chrome_checked(s, gate, running).selected_urls),
{
    assert(no_dups(Seq::<Seq<char>>::empty()));
    let r = key_step(s, k).0;
    if s.popup_message is Some || s.chrome_warning {
    } else if s.confirm_delete {
        let t = AppState { confirm_delete: false, ..s };
        if k.code == Key::Char('y') {
            assert(r == deleted_state(t));
        }
    } else if s.edit_mode {
        lemma_edit_keeps_marks(s, k);
    } else if s.search_mode {
        assert(r == search_key(s, k));
    } else if s.pending_colon {
        let t = AppState { pending_colon: false, ..s };
        assert(r == after_colon(s, k).0);
        if k.code != Key::Char('w') && !t.pending_d {
            assert(r == table_key(t, k).0);
            match k.code {
                Key::Char(c) => lemma_char_key_distinct(t, c, k.ctrl),
                _ => {},
            }
        }
    } else if s.pending_d {
        assert(r == after_d(s, k).0);
    } else {
        assert(r == table_key(s, k).0);
        match k.code {
            Key::Char(c) => lemma_char_key_distinct(s, c, k.ctrl),
            _ => {},
        }
    }
}

/// In the edit popup, typing a character and then Backspace leaves the screen as
/// it was.
pub proof fn law_type_then_backspace(s: AppState, c: char, ctrl: bool, ctrl2: bool)
    requires
        s.popup_message is None,
        !s.chrome_warning,
        !s.confirm_delete,
        s.edit_mode,
        s.edit_cursor < usize::MAX,
        !(ctrl && c == 's'),
    ensures
        key_step(
            key_step(s, KeyInput { code: Key::Char(c), ctrl }).0,
            KeyInput { code: Key::Backspace, ctrl: ctrl2 },
        ).0 == s,
{
    let t = edit_insert(s, c);
    let b = edit_buf(s);
    let p = edit_pos(s);
    assert(edit_buf(t) == b.insert(p, c));
    assert(edit_pos(t) == p + 1);
    assert(b.insert(p, c).remove(p) =~= b);
    lemma_backspace(t, b);
    assert(with_edit_buf(t, b) == AppState { edit_cursor: t.edit_cursor, ..s });
}

/// On the search line, typing a character and then Backspace leaves the query
/// as it was, with the first row highlighted.
pub proof fn law_search_type_then_backspace(s: AppState, c: char, ctrl: bool, ctrl2: bool)
    requires
        s.popup_message is None,
        !s.chrome_warning,
        !s.confirm_delete,
        !s.edit_mode,
        s.search_mode,
    ensures
        key_step(
            key_step(s, KeyInput { code: Key::Char(c), ctrl }).0,
            KeyInput { code: Key::Backspace, ctrl: ctrl2 },
        ).0 == with_selected(s, Some(0usize)),
{
    assert(s.search_query.push(c).drop_last() =~= s.search_query);
}

/// Choosing the sort column the table is already sorted by twice restores the
/// direction; choosing another column twice sorts by it descending. Either way
/// the first row is highlighted.
pub proof fn law_sort_twice(s: AppState, mode: SortMode)
    ensures
        s.sort_mode == mode ==> sorted_by(sorted_by(s, mode), mode) == with_selected(s, Some(0usize)),
        s.sort_mode != mode ==> sorted_by(sorted_by(s, mode), mode) == (AppState {
            sort_mode: mode,
            sort_ascending: false,
            selected: Some(0usize),
            ..s
        }),
{
}

/// Filtering agrees on sequences that agree on the filtered prefix.
proof fn lemma_kept_prefix<A>(s1: Seq<A>, s2: Seq<A>, drop: spec_fn(A) -> bool, n: int)
    requires
        0 <= n <= s1.len(),
        n <= s2.len(),
        forall|j: int| 0 <= j < n ==> s1[j] == s2[j],
    ensures
        crate::tree::kept(s1, drop, n) == crate::tree::kept(s2, drop, n),
    decreases n,
{
    if n > 0 {
        lemma_kept_prefix(s1, s2, drop, n - 1);
    }
}

/// Marking a URL that was not marked and then unmarking it leaves the marks as
/// they were.
pub proof fn law_mark_then_unmark(sel: Seq<Seq<char>>, u: Seq<char>)
    requires
        !sel.contains(u),
    ensures
        toggled_url(toggled_url(sel, u), u) == sel,
{
    let p = sel.push(u);
    assert(p.contains(u)) by {
        assert(p[sel.len() as int] == u);
    }
    let d = in_urls(seq![u]);
    assert(d(u)) by {
        assert(seq![u][0] == u);
    }
    lemma_kept_prefix(p, sel, d, sel.len() as int);
    assert forall|j: int| 0 <= j < sel.len() implies !d(#[trigger] sel[j]) by {
        if d(sel[j]) {
            let k = choose|k: int| 0 <= k < 1 && #[trigger] seq![u][k] == sel[j];
            assert(sel.contains(sel[j]));
        }
    }
    crate::tree::lemma_kept_all(sel, d, sel.len() as int);
    assert(sel.take(sel.len() as int) =~= sel);
}

/// Recording a result keeps the invalid counter equal to the number of invalid
/// results; a reset starts both at zero.
pub proof fn law_invalid_counter(s: AppState, r: ResultView, done: usize)
    requires
        s.invalid == crate::check::invalid_count(s.results, s.results.len() as int),
        !r.is_valid ==> s.invalid < usize::MAX,
    ensures
        recorded(s, r, done).invalid == crate::check::invalid_count(
            recorded(s, r, done).results,
            recorded(s, r, done).results.len() as int,
        ),
        reset_state(s).invalid == crate::check::invalid_count(
            reset_state(s).results,
            reset_state(s).results.len() as int,
        ),
{
    let rs = s.results.push(r);
    let n = s.results.len() as int;
    assert(crate::check::invalid_count(rs, n) == crate::check::invalid_count(s.results, n)) by {
        lemma_invalid_count_prefix(rs, s.results, n);
    }
}

/// The invalid count depends only on the counted prefix.
proof fn lemma_invalid_count_prefix(s1: Seq<ResultView>, s2: Seq<ResultView>, n: int)
    requires
        0 <= n <= s1.len(),
        n <= s2.len(),
        forall|j: int| 0 <= j < n ==> s1[j] == s2[j],
    ensures
        crate::check::invalid_count(s1, n) == crate::check::invalid_count(s2, n),
    decreases n,
{
    if n > 0 {
        lemma_invalid_count_prefix(s1, s2, n - 1);
    }
}

/// The matching rows are in increasing order.
proof fn lemma_matching_rows_increasing(results: Seq<ResultView>, q: Seq<char>, n: int)
    requires
        0 <= n <= results.len(),
    ensures
        forall|a: int, b: int|
            0 <= a < b < matching_rows(results, q, n).len() ==> #[trigger] matching_rows(results, q, n)[a]
                < #[trigger] matching_rows(results, q, n)[b],
    decreases n,
{
    if n > 0 {
        lemma_matching_rows_increasing(results, q, n - 1);
        lemma_matching_rows(results, q, n - 1);
    }
}

/// Row `i` of the results sorts before row `j` in a stable sort of the table.
pub open spec fn row_before(s: AppState, i: int, j: int) -> bool {
    let ki = row_key(s.results[i], s.sort_mode);
    let kj = row_key(s.results[j], s.sort_mode);
    crate::order::dir_less(ki, kj, s.sort_ascending) || (ki == kj && i < j)
}

/// The table lists the rows that match the search, each once: in their original
/// order when unsorted, otherwise stably sorted by the sort column in the sort
/// direction.
pub proof fn law_visible_rows_sorted(s: AppState)
    requires
        s.results.len() <= usize::MAX,
    ensures
        forall|a: int| 0 <= a < row_count(s) ==> matching_rows(
            s.results,
            lowercase(s.search_query),
            s.results.len() as int,
        ).contains(#[trigger] visible_rows(s)[a]),
        row_count(s) == matching_rows(s.results, lowercase(s.search_query), s.results.len() as int).len(),
        forall|a: int, b: int|
            0 <= a < b < row_count(s) ==> #[trigger] visible_rows(s)[a] != #[trigger] visible_rows(s)[b],
        s.sort_mode == SortMode::Unsorted ==> forall|a: int, b: int|
            0 <= a < b < row_count(s) ==> #[trigger] visible_rows(s)[a] < #[trigger] visible_rows(s)[b],
        s.sort_mode != SortMode::Unsorted ==> forall|a: int, b: int|
            0 <= a < b < row_count(s) ==> row_before(s, #[trigger] visible_rows(s)[a], #[trigger] visible_rows(s)[b]),
{
    let n = s.results.len() as int;
    let q = lowercase(s.search_query);
    let rows = matching_rows(s.results, q, n);
    lemma_matching_rows(s.results, q, n);
    lemma_matching_rows_increasing(s.results, q, n);
    let vis = visible_rows(s);
    if s.sort_mode == SortMode::Unsorted {
        assert forall|a: int| 0 <= a < vis.len() implies rows.contains(#[trigger] vis[a]) by {
            assert(rows[a] == vis[a]);
        }
    } else {
        let keys = Seq::new(rows.len(), |k: int| row_key(s.results[rows[k]], s.sort_mode));
        let order = sorted_positions(keys, s.sort_ascending);
        crate::order::lemma_sorted_positions_stable(keys, s.sort_ascending);
        crate::order::lemma_stable_order_distinct(order, keys, s.sort_ascending);
        assert(vis == Seq::new(order.len(), |k: int| rows[order[k] as int]));
        assert forall|a: int| 0 <= a < vis.len() implies rows.contains(#[trigger] vis[a]) by {
            assert(rows[order[a] as int] == vis[a]);
        }
        assert forall|a: int, b: int| 0 <= a < b < vis.len() implies #[trigger] vis[a] != #[trigger] vis[b] by {
            let oa = order[a] as int;
            let ob = order[b] as int;
            assert(oa != ob);
            if oa < ob {
                assert(rows[oa] < rows[ob]);
            } else {
                assert(rows[ob] < rows[oa]);
            }
        }
        assert forall|a: int, b: int| 0 <= a < b < vis.len() implies row_before(s, #[trigger] vis[a], #[trigger] vis[b]) by {
            let oa = order[a] as int;
            let ob = order[b] as int;
            assert(crate::order::comes_before(keys, s.sort_ascending, oa, ob));
            assert(keys[oa] == row_key(s.results[vis[a]], s.sort_mode));
            assert(keys[ob] == row_key(s.results[vis[b]], s.sort_mode));
            if oa < ob {
                assert(rows[oa] < rows[ob]);
            }
        }
    }
}

/// A `:` not followed by `w` changes nothing: the next key acts on the table as
/// it would have without the `:`.
pub proof fn law_colon_passes_keys(s: AppState, k: KeyInput)
    requires
        s.popup_message is None,
        !s.chrome_warning,
        !s.confirm_delete,
        !s.edit_mode,
        !s.search_mode,
        !s.pending_colon,
        !s.pending_d,
        k.code != Key::Char('w'),
    ensures
        key_step(key_step(s, KeyInput { code: Key::Char(':'), ctrl: false }).0, k) == table_key(s, k),
{
    let c = key_step(s, KeyInput { code: Key::Char(':'), ctrl: false }).0;
    assert(c == AppState { pending_colon: true, ..s });
    assert(AppState { pending_colon: false, ..c } == s);
}

/// An element is kept by a filter of `s[..n]` exactly when it is one of them and
/// the filter does not drop it.
proof fn lemma_kept_contains<A>(s: Seq<A>, drop: spec_fn(A) -> bool, n: int)
    requires
        0 <= n <= s.len(),
    ensures
        forall|x: A| #[trigger] crate::tree::kept(s, drop, n).contains(x) <==> (s.take(n).contains(x) && !drop(x)),
    decreases n,
{
    if n > 0 {
        lemma_kept_contains(s, drop, n - 1);
        let r = crate::tree::kept(s, drop, n - 1);
        assert forall|x: A| #[trigger] crate::tree::kept(s, drop, n).contains(x) <==> (s.take(n).contains(x) && !drop(x)) by {
            assert(s.take(n) =~= s.take(n - 1).push(s[n - 1]));
            if r.push(s[n - 1]).contains(x) && x != s[n - 1] {
                let j = choose|j: int| 0 <= j < r.len() + 1 && #[trigger] r.push(s[n - 1])[j] == x;
                assert(r[j] == x);
            }
            if r.contains(x) {
                let j = choose|j: int| 0 <= j < r.len() && #[trigger] r[j] == x;
                assert(r.push(s[n - 1])[j] == x);
            }
            if s.take(n).contains(x) && x != s[n - 1] {
                let j = choose|j: int| 0 <= j < n && #[trigger] s.take(n)[j] == x;
                assert(s.take(n - 1)[j] == x);
            }
            if s.take(n - 1).contains(x) {
                let j = choose|j: int| 0 <= j < n - 1 && #[trigger] s.take(n - 1)[j] == x;
                assert(s.take(n)[j] == x);
            }
            if x == s[n - 1] {
                assert(s.take(n)[n - 1] == x);
                assert(r.push(s[n - 1])[r.len() as int] == x);
            }
        }
    } else {
        assert forall|x: A| #[trigger] crate::tree::kept(s, drop, n).contains(x) <==> (s.take(n).contains(x) && !drop(x)) by {
            assert(s.take(n).len() == 0);
        }
    }
}

/// A URL is among the marks after adding `urls[..n]` exactly when it was marked
/// before or is one of them.
proof fn lemma_added_contains(sel: Seq<Seq<char>>, urls: Seq<Seq<char>>, n: int)
    requires
        0 <= n <= urls.len(),
    ensures
        forall|x: Seq<char>| #[trigger] added_urls(sel, urls, n).contains(x) <==> (sel.contains(x) || urls.take(n).contains(x)),
    decreases n,
{
    if n > 0 {
        lemma_added_contains(sel, urls, n - 1);
        let t = added_urls(sel, urls, n - 1);
        let u = urls[n - 1];
        assert forall|x: Seq<char>| #[trigger] added_urls(sel, urls, n).contains(x) <==> (sel.contains(x) || urls.take(n).contains(x)) by {
            assert(urls.take(n) =~= urls.take(n - 1).push(u));
            if t.push(u).contains(x) && x != u {
                let j = choose|j: int| 0 <= j < t.len() + 1 && #[trigger] t.push(u)[j] == x;
                assert(t[j] == x);
            }
            if t.contains(x) {
                let j = choose|j: int| 0 <= j < t.len() && #[trigger] t[j] == x;
                assert(t.push(u)[j] == x);
            }
            if urls.take(n).contains(x) && x != u {
                let j = choose|j: int| 0 <= j < n && #[trigger] urls.take(n)[j] == x;
                assert(urls.take(n - 1)[j] == x);
            }
            if urls.take(n - 1).contains(x) {
                let j = choose|j: int| 0 <= j < n - 1 && #[trigger] urls.take(n - 1)[j] == x;
                assert(urls.take(n)[j] == x);
            }
            if x == u {
                assert(urls.take(n)[n - 1] == x);
                assert(t.push(u)[t.len() as int] == x);
            }
        }
    } else {
        assert forall|x: Seq<char>| #[trigger] added_urls(sel, urls, n).contains(x) <==> (sel.contains(x) || urls.take(n).contains(x)) by {
            assert(urls.take(n).len() == 0);
        }
    }
}

/// V on the results table marks or unmarks the visible rows only: when every
/// visible row is marked it unmarks all of them, otherwise it marks all of
/// them; the mark of every row that is not visible (hidden by the filter)
/// stays as it was, and nothing but the marks changes.
pub proof fn law_mark_all_touches_only_visible(s: AppState, ctrl: bool)
    requires
        s.popup_message is None,
        !s.chrome_warning,
        !s.confirm_delete,
        !s.edit_mode,
        !s.search_mode,
        !s.pending_colon,
        !s.pending_d,
    ensures
        ({
            let (t, a) = key_step(s, KeyInput { code: Key::Char('V'), ctrl });
            let vis = visible_urls(s);
            let all_marked = forall|k: int| 0 <= k < vis.len() ==> s.selected_urls.contains(#[trigger] vis[k]);
            &&& a == ActionView::Nothing
            &&& t == AppState { selected_urls: t.selected_urls, ..s }
            &&& forall|u: Seq<char>| !vis.contains(u) ==> (#[trigger] t.selected_urls.contains(u) <==> s.selected_urls.contains(u))
            &&& all_marked ==> forall|k: int| 0 <= k < vis.len() ==> !t.selected_urls.contains(#[trigger] vis[k])
            &&& !all_marked ==> forall|k: int| 0 <= k < vis.len() ==> t.selected_urls.contains(#[trigger] vis[k])
        }),
{
    let vis = visible_urls(s);
    let sel = s.selected_urls;
    let t = key_step(s, KeyInput { code: Key::Char('V'), ctrl }).0;
    assert(t == toggle_select_all(s));
    assert(vis.take(vis.len() as int) =~= vis);
    assert(sel.take(sel.len() as int) =~= sel);
    lemma_kept_contains(sel, in_urls(vis), sel.len() as int);
    lemma_added_contains(sel, vis, vis.len() as int);
    assert forall|k: int| 0 <= k < vis.len() implies vis.contains(#[trigger] vis[k]) by {}
}
} // verus!
