# checkbookmark

A Chrome bookmark checker whose core is verified with Verus. It reads a Chrome
`Bookmarks` file, sends a HEAD request to every bookmark, and shows the results
on an interactive terminal screen where bookmarks can be sorted, filtered,
opened, edited and deleted; edits are written back to the file with a fresh
checksum and exported as an HTML bookmark file for import into Chrome.

## Layout

- `src/` — the verified library:
  - `json.rs` — a JSON document as plain values, with member lookup and update,
    and the parse and pretty print of JSON text (through `serde_json`).
  - `file.rs` — an edit of the bookmarks file from text to text: parse, edit,
    stamp the checksum, print; and the profile name read from `Preferences`.
  - `tree.rs` — renaming, deleting, removing empty folders and moving bookmarks
    in a bookmarks document, with the laws that relate them.
  - `checksum.rs` — the checksum Chrome stores in a bookmarks file (MD5 through
    the `md-5` crate).
  - `entries.rs` — the flat list of bookmarks and empty folders of a file.
  - `html.rs` — the bookmarks as a Netscape bookmark file for import into Chrome.
  - `check.rs` — the status reported for a checked URL and the report filters.
  - `order.rs` — stable sorting by rank and text.
  - `tui.rs` — the state of the results screen and what each key does to it.
  - `display.rs` — display widths (through the `unicode-width` crate), cut and
    padded columns, key hints and table labels.
  - `profiles.rs` — Chrome profiles: names, order, and picking one.
  - `text.rs` — character-level string helpers.
- `app/` — the program around the library: command line, files, processes,
  HTTP requests and the terminal.
- `tests/` — tests of the library.

## Keys

| Key | Action |
|---|---|
| `↑`/`k`, `↓`/`j` | move |
| `PgUp`/`Ctrl+u`, `PgDn`/`Ctrl+d` | page |
| `g`, `G` | first, last row |
| `s`, `f`, `n`, `u` | sort by status, folder, name, URL (again: reverse) |
| `/` | filter by name, URL, status or folder |
| `Esc` | clear the filter, or cancel a popup |
| `Space`, `V` | mark the row, mark all visible rows |
| `o` | open the URL |
| `e` | edit (Enter saves and closes, `Ctrl+s` saves and keeps the popup) |
| `dd` | stage the deletion of the marked rows or the current row |
| `:w` | write the staged deletions and export HTML (after `:` any other key acts as usual) |
| `r` | check again |
| `q` | quit |
