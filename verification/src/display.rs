//! Text laid out for the terminal: display widths, cut and padded columns, key
//! hints, and the labels of the results table.
use vstd::prelude::*;

use crate::entries::CheckResult;
use crate::text::{chars_of, concat, decimal, format_decimal, owned, starts_with, string_from_chars};
use crate::tui::SortMode;

verus! {

// ---------------------------------------------------------------------------
// Display widths

/// The number of terminal columns `unicode-width` gives a string.
pub uninterp spec fn text_columns(s: Seq<char>) -> usize;

/// The number of terminal columns `unicode-width` gives a character, `None`
/// for a control character.
pub uninterp spec fn char_columns(c: char) -> Option<usize>;

/// `UnicodeWidthStr::width`. The contract names the result; of its value it
/// states only that the empty string takes no columns (the width tables and the
/// rules for character sequences are left unsaid).
#[verifier::external_body]
fn str_width(s: &str) -> (r: usize)
    ensures
        r == text_columns(s@),
        s@.len() == 0 ==> r == 0,
{
    unicode_width::UnicodeWidthStr::width(s)
}

/// `UnicodeWidthChar::width`. The contract names the result and states what
/// the source shows for the first 160 code points: printable ASCII takes one
/// column, the C0 and C1 control characters have no width; any width it gives
/// fits a byte. The width tables for the rest are left unsaid.
#[verifier::external_body]
fn char_width(c: char) -> (r: Option<usize>)
    ensures
        r == char_columns(c),
        0x20 <= (c as u32) < 0x7f ==> r == Some(1usize),
        (c as u32) < 0x20 || (0x7f <= (c as u32) < 0xa0) ==> r is None,
        r matches Some(w) ==> w <= 255,
{
    unicode_width::UnicodeWidthChar::width(c)
}

/// The columns a width stands for, a control character (no width) as none.
pub open spec fn columns_of(w: Option<usize>) -> int {
    match w {
        Some(x) => x as int,
        None => 0,
    }
}

/// The widths `unicode-width` gives the characters of a string, in order.
pub open spec fn char_widths(s: Seq<char>) -> Seq<Option<usize>> {
    Seq::new(s.len(), |i: int| char_columns(s[i]))
}

/// Taking widths from position `i` on, with `w` columns already taken, while
/// the running sum stays within `limit`: the position where taking stops.
pub open spec fn fit_from(ws: Seq<Option<usize>>, limit: int, i: int, w: int) -> int
    decreases ws.len() - i,
{
    if i < 0 || i >= ws.len() {
        i
    } else if w + columns_of(ws[i]) <= limit {
        fit_from(ws, limit, i + 1, w + columns_of(ws[i]))
    } else {
        i
    }
}

/// A string cut to at most `max` columns: unchanged when it fits, otherwise the
/// longest start whose running width stays within `max - 3`, followed by `...`.
pub open spec fn truncated(s: Seq<char>, max: usize) -> Seq<char> {
    if text_columns(s) <= max {
        s
    } else {
        s.take(fit_from(char_widths(s), max - 3, 0, 0)) + "..."@
    }
}

/// The cut stops within the widths.
proof fn lemma_fit_from(ws: Seq<Option<usize>>, limit: int, i: int, w: int)
    requires
        0 <= i <= ws.len(),
    ensures
        i <= fit_from(ws, limit, i, w) <= ws.len(),
    decreases ws.len() - i,
{
    if i < ws.len() && w + columns_of(ws[i]) <= limit {
        lemma_fit_from(ws, limit, i + 1, w + columns_of(ws[i]));
    }
}

/// How many of the leading widths fit within `limit` columns when taken in
/// order (see [`fit_from`]).
pub fn fit_widths(widths: &Vec<Option<usize>>, limit: usize) -> (r: usize)
    ensures
        r == fit_from(widths@, limit as int, 0, 0),
{
    let mut i: usize = 0;
    let mut w: usize = 0;
    while i < widths.len()
        invariant_except_break
            i <= widths@.len(),
            w <= limit,
            fit_from(widths@, limit as int, 0, 0) == fit_from(widths@, limit as int, i as int, w as int),
        ensures
            i <= widths@.len(),
            fit_from(widths@, limit as int, 0, 0) == i,
        decreases widths.len() - i,
    {
        let cw: usize = match widths[i] {
            Some(x) => x,
            None => 0,
        };
        if cw > limit - w {
            break;
        }
        w = w + cw;
        i = i + 1;
    }
    i
}

/// Cuts a string to at most `max` display columns (see [`truncated`]).
pub fn truncate(s: &str, max: usize) -> (r: String)
    requires
        text_columns(s@) > max ==> max >= 3,
    ensures
        r@ == truncated(s@, max),
{
    let width = str_width(s);
    if width <= max {
        return owned(s);
    }
    let cs = chars_of(s);
    let mut widths: Vec<Option<usize>> = Vec::new();
    let mut j: usize = 0;
    while j < cs.len()
        invariant
            cs@ == s@,
            j <= cs@.len(),
            widths@ == char_widths(s@).take(j as int),
        decreases cs.len() - j,
    {
        widths.push(char_width(cs[j]));
        assert(char_widths(s@).take(j + 1) =~= char_widths(s@).take(j as int).push(char_columns(s@[j as int])));
        j = j + 1;
    }
    assert(char_widths(s@).take(j as int) =~= char_widths(s@));
    let i = fit_widths(&widths, max - 3);
    proof {
        lemma_fit_from(widths@, (max - 3) as int, 0, 0);
    }
    let mut head: Vec<char> = Vec::new();
    let mut k: usize = 0;
    while k < i
        invariant
            cs@ == s@,
            i <= cs@.len(),
            k <= i,
            head@ == s@.take(k as int),
        decreases i - k,
    {
        head.push(cs[k]);
        assert(s@.take(k + 1) =~= s@.take(k as int).push(s@[k as int]));
        k = k + 1;
    }
    let head = string_from_chars(head.as_slice());
    concat(head.as_str(), "...")
}

/// Cuts a string to at most `max` display columns (see [`truncated`]), or
/// `None` when it is wider than `max` and `max` is below 3, leaving no room for
/// the `...`.
pub fn truncate_checked(s: &str, max: usize) -> (r: Option<String>)
    ensures
        r is None <==> (text_columns(s@) > max && max < 3),
        r matches Some(t) ==> t@ == truncated(s@, max),
{
    if str_width(s) > max && max < 3 {
        None
    } else {
        Some(truncate(s, max))
    }
}

/// `n` spaces.
pub open spec fn spaces(n: nat) -> Seq<char> {
    Seq::new(n, |i: int| ' ')
}

/// A string padded with spaces to at least `width` display columns.
pub open spec fn padded(s: Seq<char>, width: usize) -> Seq<char> {
    if text_columns(s) >= width {
        s
    } else {
        s + spaces((width - text_columns(s)) as nat)
    }
}

/// `s`, taking `columns` display columns, padded with spaces to `width` columns.
pub fn pad_with(s: &str, columns: usize, width: usize) -> (r: String)
    ensures
        r@ == (if columns >= width {
            s@
        } else {
            s@ + spaces((width - columns) as nat)
        }),
{
    if columns >= width {
        return owned(s);
    }
    let mut cs = chars_of(s);
    let mut k: usize = 0;
    while k < width - columns
        invariant
            columns < width,
            k <= width - columns,
            cs@ == s@ + spaces(k as nat),
        decreases width - columns - k,
    {
        cs.push(' ');
        assert(spaces((k + 1) as nat) =~= spaces(k as nat).push(' '));
        k = k + 1;
    }
    string_from_chars(cs.as_slice())
}

/// Pads a string with spaces to `width` display columns (see [`padded`]).
pub fn pad_width(s: &str, width: usize) -> (r: String)
    ensures
        r@ == padded(s@, width),
{
    let w = str_width(s);
    pad_with(s, w, width)
}

/// The display columns of the first `cursor` characters of `buf`: where the
/// cursor of an edit field stands.
pub open spec fn cursor_columns(buf: Seq<char>, cursor: usize) -> usize {
    text_columns(buf.take(if cursor <= buf.len() { cursor as int } else { buf.len() as int }))
}

/// Where the cursor of an edit field stands, in display columns (see
/// [`cursor_columns`]).
pub fn cursor_offset(buf: &str, cursor: usize) -> (r: usize)
    ensures
        r == cursor_columns(buf@, cursor),
{
    let cs = chars_of(buf);
    let n = if cursor <= cs.len() { cursor } else { cs.len() };
    let mut head: Vec<char> = Vec::new();
    let mut k: usize = 0;
    while k < n
        invariant
            cs@ == buf@,
            n <= cs@.len(),
            k <= n,
            head@ == buf@.take(k as int),
        decreases n - k,
    {
        head.push(cs[k]);
        assert(buf@.take(k + 1) =~= buf@.take(k as int).push(buf@[k as int]));
        k = k + 1;
    }
    let prefix = string_from_chars(head.as_slice());
    str_width(prefix.as_str())
}

// ---------------------------------------------------------------------------
// Key hints

/// The position of the first `c` in `s` at or after `i`.
pub open spec fn find_from(s: Seq<char>, c: char, i: int) -> Option<int>
    decreases s.len() - i,
{
    if i < 0 || i >= s.len() {
        None
    } else if s[i] == c {
        Some(i)
    } else {
        find_from(s, c, i + 1)
    }
}

/// A found position is the first `c` at or after `i`.
pub proof fn lemma_find_from(s: Seq<char>, c: char, i: int)
    ensures
        find_from(s, c, i) matches Some(k) ==> i <= k < s.len() && s[k] == c && forall|j: int|
            i <= j < k ==> s[j] != c,
        find_from(s, c, i) is None ==> forall|j: int| 0 <= i <= j < s.len() ==> s[j] != c,
    decreases s.len() - i,
{
    if 0 <= i < s.len() && s[i] != c {
        lemma_find_from(s, c, i + 1);
    }
}

/// The pieces of a hint line from position `i` on, each marked whether it is a
/// key: a piece in square brackets is a key, the text between is not. A `[`
/// with no closing `]` starts a last, plain piece that runs to the end.
pub open spec fn hint_pieces_from(t: Seq<char>, i: int) -> Seq<(Seq<char>, bool)>
    decreases t.len() - i,
{
    if i < 0 || i > t.len() {
        Seq::empty()
    } else {
        match find_from(t, '[', i) {
            None => if i < t.len() {
                seq![(t.subrange(i, t.len() as int), false)]
            } else {
                Seq::empty()
            },
            Some(start) => {
                let pre = if start > i {
                    seq![(t.subrange(i, start), false)]
                } else {
                    Seq::empty()
                };
                match find_from(t, ']', start) {
                    Some(end) => {
                        proof {
                            lemma_find_from(t, '[', i);
                            lemma_find_from(t, ']', start);
                        }
                        pre + seq![(t.subrange(start, end + 1), true)] + hint_pieces_from(t, end + 1)
                    },
                    None => pre + seq![(t.subrange(start, t.len() as int), false)],
                }
            },
        }
    }
}

/// The pieces of a hint line (see [`hint_pieces_from`]).
pub open spec fn hint_pieces(t: Seq<char>) -> Seq<(Seq<char>, bool)> {
    hint_pieces_from(t, 0)
}

/// The models of hint pieces.
pub open spec fn pieces_model(v: Seq<(String, bool)>) -> Seq<(Seq<char>, bool)> {
    Seq::new(v.len(), |i: int| (v[i].0@, v[i].1))
}

/// The characters `cs[a..b]` as a string.
fn substring(cs: &Vec<char>, a: usize, b: usize) -> (r: String)
    requires
        a <= b <= cs@.len(),
    ensures
        r@ == cs@.subrange(a as int, b as int),
{
    let mut v: Vec<char> = Vec::new();
    let mut k: usize = a;
    while k < b
        invariant
            a <= k <= b,
            b <= cs@.len(),
            v@ == cs@.subrange(a as int, k as int),
        decreases b - k,
    {
        v.push(cs[k]);
        assert(cs@.subrange(a as int, k + 1) =~= cs@.subrange(a as int, k as int).push(cs@[k as int]));
        k = k + 1;
    }
    string_from_chars(v.as_slice())
}

/// The first `c` in `cs` at or after `i` (see [`find_from`]).
fn find_char(cs: &Vec<char>, c: char, i: usize) -> (r: Option<usize>)
    ensures
        match find_from(cs@, c, i as int) {
            Some(k) => r == Some(k as usize),
            None => r is None,
        },
{
    let mut k = i;
    while k < cs.len()
        invariant
            i <= k,
            find_from(cs@, c, i as int) == find_from(cs@, c, k as int),
        decreases cs.len() - k,
    {
        if cs[k] == c {
            return Some(k);
        }
        k = k + 1;
    }
    None
}

/// Splits a hint line into its pieces, each marked whether it is a key (see
/// [`hint_pieces`]).
pub fn styled_hint(text: &str) -> (r: Vec<(String, bool)>)
    ensures
        pieces_model(r@) == hint_pieces(text@),
{
    let cs = chars_of(text);
    let ghost t = text@;
    let mut out: Vec<(String, bool)> = Vec::new();
    let mut i: usize = 0;
    assert(pieces_model(out@) =~= Seq::<(Seq<char>, bool)>::empty());
    loop
        invariant_except_break
            cs@ == t,
            i <= cs@.len(),
            pieces_model(out@) + hint_pieces_from(t, i as int) == hint_pieces(t),
        ensures
            pieces_model(out@) == hint_pieces(t),
        decreases cs.len() - i,
    {
        let ghost before = out@;
        proof {
            lemma_find_from(t, '[', i as int);
        }
        match find_char(&cs, '[', i) {
            None => {
                if i < cs.len() {
                    out.push((substring(&cs, i, cs.len()), false));
                }
                assert(pieces_model(out@) =~= pieces_model(before) + hint_pieces_from(t, i as int));
                break;
            },
            Some(start) => {
                if start > i {
                    out.push((substring(&cs, i, start), false));
                }
                proof {
                    lemma_find_from(t, ']', start as int);
                }
                match find_char(&cs, ']', start) {
                    Some(end) => {
                        out.push((substring(&cs, start, end + 1), true));
                        assert(pieces_model(out@) + hint_pieces_from(t, end + 1) =~= pieces_model(before)
                            + hint_pieces_from(t, i as int));
                        i = end + 1;
                    },
                    None => {
                        out.push((substring(&cs, start, cs.len()), false));
                        assert(pieces_model(out@) =~= pieces_model(before) + hint_pieces_from(t, i as int));
                        break;
                    },
                }
            },
        }
    }
    out
}

/// The text of the pieces, one after another.
pub open spec fn joined(ps: Seq<(Seq<char>, bool)>) -> Seq<char>
    decreases ps.len(),
{
    if ps.len() == 0 {
        Seq::empty()
    } else {
        joined(ps.drop_last()) + ps.last().0
    }
}

proof fn lemma_joined_append(a: Seq<(Seq<char>, bool)>, b: Seq<(Seq<char>, bool)>)
    ensures
        joined(a + b) == joined(a) + joined(b),
    decreases b.len(),
{
    if b.len() == 0 {
        assert(a + b =~= a);
        assert(joined(a) + joined(b) =~= joined(a));
    } else {
        lemma_joined_append(a, b.drop_last());
        assert((a + b).drop_last() =~= a + b.drop_last());
        assert(joined(a) + joined(b) =~= joined(a) + joined(b.drop_last()) + b.last().0);
    }
}

proof fn lemma_joined_one(x: (Seq<char>, bool))
    ensures
        joined(seq![x]) == x.0,
{
    let e = Seq::<(Seq<char>, bool)>::empty();
    assert(seq![x].drop_last() =~= e);
    assert(joined(e) == Seq::<char>::empty());
    assert(seq![x].last() == x);
    assert(Seq::<char>::empty() + x.0 =~= x.0);
}

proof fn lemma_hint_pieces_join(t: Seq<char>, i: int)
    requires
        0 <= i <= t.len(),
    ensures
        joined(hint_pieces_from(t, i)) == t.subrange(i, t.len() as int),
        forall|k: int| 0 <= k < hint_pieces_from(t, i).len() ==> (#[trigger] hint_pieces_from(t, i)[k]).0.len() > 0,
    decreases t.len() - i,
{
    lemma_find_from(t, '[', i);
    match find_from(t, '[', i) {
        None => {
            if i < t.len() {
                lemma_joined_one((t.subrange(i, t.len() as int), false));
            } else {
                assert(t.subrange(i, t.len() as int) =~= Seq::<char>::empty());
            }
        },
        Some(start) => {
            lemma_find_from(t, ']', start);
            let pre = if start > i {
                seq![(t.subrange(i, start), false)]
            } else {
                Seq::empty()
            };
            if start > i {
                lemma_joined_one((t.subrange(i, start), false));
            } else {
                assert(joined(pre) =~= Seq::<char>::empty());
            }
            if find_from(t, ']', start) is None {
                let tail = seq![(t.subrange(start, t.len() as int), false)];
                lemma_joined_append(pre, tail);
                lemma_joined_one((t.subrange(start, t.len() as int), false));
                assert(joined(pre) + joined(tail) =~= t.subrange(i, t.len() as int));
            } else {
                let end = find_from(t, ']', start)->Some_0;
                let key = seq![(t.subrange(start, end + 1), true)];
                let rest = hint_pieces_from(t, end + 1);
                lemma_hint_pieces_join(t, end + 1);
                lemma_joined_append(pre + key, rest);
                lemma_joined_append(pre, key);
                lemma_joined_one((t.subrange(start, end + 1), true));
                assert(joined(pre) + joined(key) + joined(rest) =~= t.subrange(i, t.len() as int));
            }
        },
    }
}

/// The pieces of a hint line put together give the line back, and none is empty.
pub proof fn law_hint_pieces_join(t: Seq<char>)
    ensures
        joined(hint_pieces(t)) == t,
        forall|k: int| 0 <= k < hint_pieces(t).len() ==> (#[trigger] hint_pieces(t)[k]).0.len() > 0,
{
    lemma_hint_pieces_join(t, 0);
    assert(t.subrange(0, t.len() as int) =~= t);
}

// ---------------------------------------------------------------------------
// Popups and the results table

/// A popup of `percent_x` percent of the width and `height` rows, centred in an
/// area of `area_width` by `area_height` that starts at the origin: its left
/// column, top row, width and height.
pub open spec fn centered(percent_x: u16, height: u16, area_width: u16, area_height: u16) -> (u16, u16, u16, u16) {
    let w = (area_width * percent_x / 100) as u16;
    let x = (if area_width >= w { (area_width - w) as u16 } else { 0u16 }) / 2;
    let y = (if area_height >= height { (area_height - height) as u16 } else { 0u16 }) / 2;
    (x, y, w, height)
}

/// Where a centred popup goes (see [`centered`]).
pub fn centered_rect(percent_x: u16, height: u16, area_width: u16, area_height: u16) -> (r: (u16, u16, u16, u16))
    requires
        area_width * percent_x <= u16::MAX,
    ensures
        r == centered(percent_x, height, area_width, area_height),
{
    let popup_width = area_width * percent_x / 100;
    let x = area_width.saturating_sub(popup_width) / 2;
    let y = area_height.saturating_sub(height) / 2;
    (x, y, popup_width, height)
}

/// The heading of a column: its name, with an arrow for the sort direction when
/// the table is sorted by it.
pub open spec fn column_label(name: Seq<char>, column: SortMode, mode: SortMode, ascending: bool) -> Seq<char> {
    if mode == column {
        name + if ascending {
            " ▲"@
        } else {
            " ▼"@
        }
    } else {
        name
    }
}

/// The headings of the results table, in column order.
pub open spec fn column_labels(mode: SortMode, ascending: bool) -> Seq<Seq<char>> {
    seq![
        "#"@,
        column_label("STATUS"@, SortMode::Status, mode, ascending),
        column_label("FOLDER"@, SortMode::Folder, mode, ascending),
        column_label("NAME"@, SortMode::Name, mode, ascending),
        column_label("URL"@, SortMode::Url, mode, ascending),
    ]
}

fn label(name: &str, column: SortMode, mode: SortMode, ascending: bool) -> (r: String)
    ensures
        r@ == column_label(name@, column, mode, ascending),
{
    if mode == column {
        if ascending {
            concat(name, " ▲")
        } else {
            concat(name, " ▼")
        }
    } else {
        owned(name)
    }
}

/// The headings of the results table (see [`column_labels`]).
pub fn header_labels(mode: SortMode, ascending: bool) -> (r: Vec<String>)
    ensures
        crate::text::strings_model(r@) == column_labels(mode, ascending),
{
    let mut v: Vec<String> = Vec::new();
    v.push(owned("#"));
    v.push(label("STATUS", SortMode::Status, mode, ascending));
    v.push(label("FOLDER", SortMode::Folder, mode, ascending));
    v.push(label("NAME", SortMode::Name, mode, ascending));
    v.push(label("URL", SortMode::Url, mode, ascending));
    assert(crate::text::strings_model(v@) =~= column_labels(mode, ascending));
    v
}

/// The number shown for the row at position `i`: counted from one, after a
/// check mark when the row is marked.
pub open spec fn row_number_text(i: usize, marked: bool) -> Seq<char> {
    if marked {
        " ✓"@ + decimal((i + 1) as nat)
    } else {
        decimal((i + 1) as nat)
    }
}

/// The number shown for a row (see [`row_number_text`]).
pub fn row_number(i: usize, marked: bool) -> (r: String)
    requires
        i < usize::MAX,
    ensures
        r@ == row_number_text(i, marked),
{
    let n = format_decimal(i + 1);
    if marked {
        concat(" ✓", n.as_str())
    } else {
        n
    }
}

/// The URL of an empty-folder entry: it starts with `folder://`.
pub open spec fn is_folder_url(url: Seq<char>) -> bool {
    "folder://"@.len() <= url.len() && url.subrange(0, "folder://"@.len() as int) == "folder://"@
}

/// The URL column of a row: empty folders show `(empty folder)`.
pub open spec fn shown_url_text(url: Seq<char>) -> Seq<char> {
    if is_folder_url(url) {
        "(empty folder)"@
    } else {
        url
    }
}

/// The URL column of a row (see [`shown_url_text`]).
pub fn shown_url(url: &str) -> (r: String)
    ensures
        r@ == shown_url_text(url@),
{
    if starts_with(url, "folder://") {
        owned("(empty folder)")
    } else {
        owned(url)
    }
}

/// How the status of a row is coloured.
#[derive(Clone, Copy, Debug, PartialEq, Eq, Structural)]
pub enum RowKind {
    EmptyFolder,
    Valid,
    Invalid,
}

/// The colour class of a row: empty folders first, then by validity.
pub open spec fn row_kind_of(url: Seq<char>, is_valid: bool) -> RowKind {
    if is_folder_url(url) {
        RowKind::EmptyFolder
    } else if is_valid {
        RowKind::Valid
    } else {
        RowKind::Invalid
    }
}

/// The colour class of a row (see [`row_kind_of`]).
pub fn row_kind(r: &CheckResult) -> (k: RowKind)
    ensures
        k == row_kind_of(r.url@, r.is_valid),
{
    if starts_with(r.url.as_str(), "folder://") {
        RowKind::EmptyFolder
    } else if r.is_valid {
        RowKind::Valid
    } else {
        RowKind::Invalid
    }
}

/// The search line while typing a search: the query, and how many rows match
/// once the query is not empty.
pub open spec fn search_line_text(query: Seq<char>, matches: usize) -> Seq<char> {
    " /"@ + query + if query.len() == 0 {
        Seq::empty()
    } else {
        "  ("@ + decimal(matches as nat) + " matches)"@
    }
}

/// The search line (see [`search_line_text`]).
pub fn search_line(query: &str, matches: usize) -> (r: String)
    ensures
        r@ == search_line_text(query@, matches),
{
    let head = concat(" /", query);
    if query.is_empty() {
        proof {
            assert(head@ + Seq::<char>::empty() =~= head@);
        }
        head
    } else {
        let n = format_decimal(matches);
        let a = concat(head.as_str(), "  (");
        let b = concat(a.as_str(), n.as_str());
        let c = concat(b.as_str(), " matches)");
        assert(c@ =~= " /"@ + query@ + ("  ("@ + decimal(matches as nat) + " matches)"@));
        c
    }
}

/// The help line under the table, with the number of marked rows and the
/// active filter when there are any.
pub open spec fn help_line_text(marked: usize, query: Seq<char>, matches: usize) -> Seq<char> {
    " [↑/↓/j/k] Navigate  [Space] Select  [V] Select All  [dd] Delete  [s/f/n/u] Sort  [o] Open  [e] Edit  [/] Filter  [r] Refresh  [q] Quit"@
        + (if marked > 0 {
        "  [Selected: "@ + decimal(marked as nat) + "]"@
    } else {
        Seq::empty()
    }) + (if query.len() > 0 {
        "  [Filter: \""@ + query + "\" "@ + decimal(matches as nat) + " matches]"@
    } else {
        Seq::empty()
    })
}

/// The help line (see [`help_line_text`]).
pub fn help_line(marked: usize, query: &str, matches: usize) -> (r: String)
    ensures
        r@ == help_line_text(marked, query@, matches),
{
    let base = " [↑/↓/j/k] Navigate  [Space] Select  [V] Select All  [dd] Delete  [s/f/n/u] Sort  [o] Open  [e] Edit  [/] Filter  [r] Refresh  [q] Quit";
    let select_info = if marked > 0 {
        let n = format_decimal(marked);
        let a = concat("  [Selected: ", n.as_str());
        concat(a.as_str(), "]")
    } else {
        String::new()
    };
    let search_info = if !query.is_empty() {
        let n = format_decimal(matches);
        let a = concat("  [Filter: \"", query);
        let b = concat(a.as_str(), "\" ");
        let c = concat(b.as_str(), n.as_str());
        concat(c.as_str(), " matches]")
    } else {
        String::new()
    };
    let x = concat(base, select_info.as_str());
    let r = concat(x.as_str(), search_info.as_str());
    assert(r@ =~= help_line_text(marked, query@, matches));
    r
}

} // verus!
