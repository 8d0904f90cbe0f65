//! The bookmarks of a document as a Netscape bookmark file, the HTML format
//! Chrome imports.
use vstd::prelude::*;

use crate::json::{
    children_of, field_str, get, get_str, items_model, lemma_array_model, lemma_children_decrease, obj_get, Json,
    JsonValue,
};
use crate::text::{chars_of, string_from_chars};
use crate::tree::{root_key, root_keys};

verus! {

/// A character as HTML text: `&`, `<`, `>` and `"` become entities.
pub open spec fn escaped_char(c: char) -> Seq<char> {
    if c == '&' {
        "&amp;"@
    } else if c == '<' {
        "&lt;"@
    } else if c == '>' {
        "&gt;"@
    } else if c == '"' {
        "&quot;"@
    } else {
        seq![c]
    }
}

/// A string as HTML text.
pub open spec fn escaped(s: Seq<char>) -> Seq<char>
    decreases s.len(),
{
    if s.len() == 0 {
        Seq::empty()
    } else {
        escaped(s.drop_last()) + escaped_char(s.last())
    }
}

/// The string under `key`, or the empty string.
pub open spec fn str_or_empty(v: Json, key: Seq<char>) -> Seq<char> {
    match field_str(v, key) {
        Some(s) => s,
        None => Seq::empty(),
    }
}

/// The lines of one node at the given indentation: a bookmark is a link, a
/// folder a heading followed by its children one level deeper; anything else
/// gives nothing.
pub open spec fn node_html(v: Json, indent: Seq<char>) -> Seq<char>
    decreases v, 0int,
{
    proof {
        lemma_children_decrease(v);
    }
    let name = escaped(str_or_empty(v, "name"@));
    if field_str(v, "type"@) == Some("url"@) {
        indent + "<DT><A HREF=\""@ + escaped(str_or_empty(v, "url"@)) + "\">"@ + name + "</A>\n"@
    } else if field_str(v, "type"@) == Some("folder"@) {
        indent + "<DT><H3>"@ + name + "</H3>\n"@ + indent + "<DL><p>\n"@ + match children_of(v) {
            Some(cs) => children_html(cs, indent + "    "@, cs.len() as int),
            None => Seq::empty(),
        } + indent + "</DL><p>\n"@
    } else {
        Seq::empty()
    }
}

/// The lines of `cs[..n]`, in order.
pub open spec fn children_html(cs: Seq<Json>, indent: Seq<char>, n: int) -> Seq<char>
    decreases cs, n,
{
    if 0 < n <= cs.len() {
        children_html(cs, indent, n - 1) + node_html(cs[n - 1], indent)
    } else {
        Seq::empty()
    }
}

/// The lines of the first `n` root folders that are present, one level in.
pub open spec fn roots_html(roots: Json, n: int) -> Seq<char>
    decreases n,
{
    if 0 < n <= 3 {
        roots_html(roots, n - 1) + match obj_get(roots, root_keys()[n - 1]) {
            Some(r) => node_html(r, "    "@),
            None => Seq::empty(),
        }
    } else {
        Seq::empty()
    }
}

/// The head of the file.
pub open spec fn html_head() -> Seq<char> {
    "<!DOCTYPE NETSCAPE-Bookmark-file-1>\n<META HTTP-EQUIV=\"Content-Type\" CONTENT=\"text/html; charset=UTF-8\">\n<TITLE>Bookmarks</TITLE>\n<H1>Bookmarks</H1>\n<DL><p>\n"@
}

/// The whole file for a document: the head, the root folders in the order
/// `bookmark_bar`, `other`, `synced`, and the closing list tag.
pub open spec fn document_html(doc: Json) -> Seq<char> {
    html_head() + match obj_get(doc, "roots"@) {
        Some(roots) => roots_html(roots, 3),
        None => Seq::empty(),
    } + "</DL><p>\n"@
}

/// Appends the characters of `s`.
fn append(out: &mut Vec<char>, s: &str)
    ensures
        final(out)@ == old(out)@ + s@,
{
    let cs = chars_of(s);
    let ghost start = out@;
    let mut i: usize = 0;
    while i < cs.len()
        invariant
            cs@ == s@,
            i <= cs@.len(),
            out@ == start + s@.take(i as int),
        decreases cs.len() - i,
    {
        out.push(cs[i]);
        assert(s@.take(i + 1) =~= s@.take(i as int).push(s@[i as int]));
        i = i + 1;
    }
    assert(s@.take(i as int) =~= s@);
}

/// Appends `s` as HTML text (see [`escaped`]).
fn append_escaped(out: &mut Vec<char>, s: &str)
    ensures
        final(out)@ == old(out)@ + escaped(s@),
{
    let cs = chars_of(s);
    let ghost start = out@;
    let mut i: usize = 0;
    assert(escaped(s@.take(0)) == Seq::<char>::empty());
    while i < cs.len()
        invariant
            cs@ == s@,
            i <= cs@.len(),
            out@ == start + escaped(s@.take(i as int)),
        decreases cs.len() - i,
    {
        let c = cs[i];
        if c == '&' {
            append(out, "&amp;");
        } else if c == '<' {
            append(out, "&lt;");
        } else if c == '>' {
            append(out, "&gt;");
        } else if c == '"' {
            append(out, "&quot;");
        } else {
            out.push(c);
        }
        assert(s@.take(i + 1).drop_last() =~= s@.take(i as int));
        assert(s@.take(i + 1).last() == c);
        i = i + 1;
        assert(out@ =~= start + escaped(s@.take(i as int)));
    }
    assert(s@.take(i as int) =~= s@);
}

/// The string under `key`, or the empty string.
fn str_field<'a>(v: &'a JsonValue, key: &str) -> (r: &'a str)
    ensures
        r@ == str_or_empty(v@, key@),
{
    match get_str(v, key) {
        Some(s) => s,
        None => {
            proof {
                reveal_strlit("");
            }
            ""
        },
    }
}

/// Appends the lines of one node (see [`node_html`]).
#[verifier::spinoff_prover]
#[verifier::rlimit(80)]
fn append_node(out: &mut Vec<char>, node: &JsonValue, indent: &Vec<char>)
    ensures
        final(out)@ == old(out)@ + node_html(node@, indent@),
    decreases node@,
{
    let ghost v = node@;
    proof {
        lemma_children_decrease(v);
    }
    let ghost start = out@;
    let name = str_field(node, "name");
    if crate::json::field_is(node, "type", "url") {
        out.extend_from_slice(indent.as_slice());
        append(out, "<DT><A HREF=\"");
        append_escaped(out, str_field(node, "url"));
        append(out, "\">");
        append_escaped(out, name);
        append(out, "</A>\n");
        assert(out@ =~= start + node_html(v, indent@));
    } else if crate::json::field_is(node, "type", "folder") {
        out.extend_from_slice(indent.as_slice());
        append(out, "<DT><H3>");
        append_escaped(out, name);
        append(out, "</H3>\n");
        out.extend_from_slice(indent.as_slice());
        append(out, "<DL><p>\n");
        let ghost base = out@;
        let mut inner = indent.clone();
        append(&mut inner, "    ");
        match get(node, "children") {
            Some(JsonValue::Array(items)) => {
                proof {
                    lemma_array_model(*items);
                }
                let ghost cs = items_model(items@);
                let mut i: usize = 0;
                assert(base + children_html(cs, inner@, 0) =~= base);
                while i < items.len()
                    invariant
                        cs == items_model(items@),
                        children_of(v) == Some(cs),
                        i <= items@.len(),
                        out@ == base + children_html(cs, inner@, i as int),
                        forall|j: int| 0 <= j < cs.len() ==> decreases_to!(v => cs[j]),
                        v == node@,
                    decreases items.len() - i,
                {
                    assert(items@[i as int]@ == cs[i as int]);
                    append_node(out, &items[i], &inner);
                    i = i + 1;
                    assert(out@ =~= base + children_html(cs, inner@, i as int));
                }
            },
            _ => {
                assert(children_of(v) is None);
                assert(base + Seq::<char>::empty() =~= base);
            },
        }
        out.extend_from_slice(indent.as_slice());
        append(out, "</DL><p>\n");
        assert(out@ =~= start + node_html(v, indent@));
    } else {
        assert(out@ =~= start + node_html(v, indent@));
    }
}

/// The Netscape bookmark file for a document (see [`document_html`]).
pub fn bookmarks_html(doc: &JsonValue) -> (r: String)
    ensures
        r@ == document_html(doc@),
{
    let mut out: Vec<char> = Vec::new();
    append(
        &mut out,
        "<!DOCTYPE NETSCAPE-Bookmark-file-1>\n<META HTTP-EQUIV=\"Content-Type\" CONTENT=\"text/html; charset=UTF-8\">\n<TITLE>Bookmarks</TITLE>\n<H1>Bookmarks</H1>\n<DL><p>\n",
    );
    assert(out@ =~= html_head());
    match get(doc, "roots") {
        Some(roots) => {
            let mut indent: Vec<char> = Vec::new();
            append(&mut indent, "    ");
            let mut i: usize = 0;
            assert(out@ + roots_html(roots@, 0) =~= html_head() + roots_html(roots@, 0));
            while i < 3
                invariant
                    i <= 3,
                    indent@ == "    "@,
                    out@ == html_head() + roots_html(roots@, i as int),
                decreases 3 - i,
            {
                match get(roots, root_key(i)) {
                    Some(root) => append_node(&mut out, root, &indent),
                    None => {},
                }
                i = i + 1;
                assert(out@ =~= html_head() + roots_html(roots@, i as int));
            }
        },
        None => {
            assert(out@ =~= html_head() + Seq::<char>::empty());
        },
    }
    append(&mut out, "</DL><p>\n");
    string_from_chars(out.as_slice())
}

} // verus!
