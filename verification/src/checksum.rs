//! The checksum Chrome keeps in a bookmarks file (as its `bookmark_codec` computes
//! it): the MD5 digest, in lowercase hex, of every node's id (UTF-8), name
//! (UTF-16LE), type (UTF-8) and, for bookmarks, URL (UTF-8), visiting folders
//! depth first and the roots in the order `bookmark_bar`, `other`, `synced`.
use vstd::prelude::*;
use vstd::string::StringSliceAdditionalSpecFns;
use vstd::utf8::encode_utf8;

use crate::json::{
    children_of, field_str, get, get_str, items_model, lemma_array_model, lemma_children_decrease,
    lemma_get_object, lemma_set_other, lemma_set_same, lemma_set_then_get, obj_get, obj_set, set_member, Json,
    JsonValue,
};
use crate::text::{chars_of, string_from_chars};
use crate::tree::{root_key, root_keys};

verus! {

/// The MD5 digest of `data` (RFC 1321), as the `md-5` crate computes it.
pub uninterp spec fn md5_digest(data: Seq<u8>) -> Seq<u8>;

/// `<Md5 as Digest>::digest` from the `md-5` crate: the 16-byte MD5 digest of
/// `data`. The contract names the digest and states its length; it does not
/// restate the MD5 algorithm.
#[verifier::external_body]
fn md5(data: &[u8]) -> (r: Vec<u8>)
    ensures
        r@ == md5_digest(data@),
        r@.len() == 16,
{
    <md5::Md5 as md5::Digest>::digest(data).to_vec()
}

/// The little-endian bytes of a 16-bit code unit.
pub open spec fn le_bytes(unit: u32) -> Seq<u8> {
    seq![(unit % 256) as u8, (unit / 256) as u8]
}

/// `char::encode_utf16` followed by `u16::to_le_bytes` on each unit: one unit for
/// characters below U+10000, otherwise a surrogate pair.
pub open spec fn char_utf16le(c: char) -> Seq<u8> {
    let u = c as u32;
    if u < 0x10000 {
        le_bytes(u)
    } else {
        let w = (u - 0x10000) as u32;
        le_bytes((0xD800 + w / 1024) as u32) + le_bytes((0xDC00 + w % 1024) as u32)
    }
}

/// The UTF-16LE encoding of a string.
pub open spec fn utf16le(s: Seq<char>) -> Seq<u8>
    decreases s.len(),
{
    if s.len() == 0 {
        Seq::empty()
    } else {
        utf16le(s.drop_last()) + char_utf16le(s.last())
    }
}

/// The bytes a string field contributes, if the node has it.
pub open spec fn utf8_field(v: Json, key: Seq<char>) -> Seq<u8> {
    match field_str(v, key) {
        Some(s) => encode_utf8(s),
        None => Seq::empty(),
    }
}

/// The `"type"` of a node, or the empty string.
pub open spec fn node_type(v: Json) -> Seq<char> {
    match field_str(v, "type"@) {
        Some(t) => t,
        None => Seq::empty(),
    }
}

/// The bytes one node contributes to the digest, its subtree included.
pub open spec fn node_digest_input(v: Json) -> Seq<u8>
    decreases v, 0int,
{
    proof {
        lemma_children_decrease(v);
    }
    let name = match field_str(v, "name"@) {
        Some(n) => utf16le(n),
        None => Seq::empty(),
    };
    let t = node_type(v);
    let tail = if t == "url"@ {
        utf8_field(v, "url"@)
    } else if t == "folder"@ {
        match children_of(v) {
            Some(cs) => children_digest_input(cs, cs.len() as int),
            None => Seq::empty(),
        }
    } else {
        Seq::empty()
    };
    utf8_field(v, "id"@) + name + encode_utf8(t) + tail
}

/// The bytes `cs[..n]` contribute, in order.
pub open spec fn children_digest_input(cs: Seq<Json>, n: int) -> Seq<u8>
    decreases cs, n,
{
    if 0 < n <= cs.len() {
        children_digest_input(cs, n - 1) + node_digest_input(cs[n - 1])
    } else {
        Seq::empty()
    }
}

/// The bytes the first `n` root folders contribute.
pub open spec fn roots_digest_input(roots: Json, n: int) -> Seq<u8>
    decreases n,
{
    if 0 < n <= 3 {
        roots_digest_input(roots, n - 1) + match obj_get(roots, root_keys()[n - 1]) {
            Some(r) => node_digest_input(r),
            None => Seq::empty(),
        }
    } else {
        Seq::empty()
    }
}

/// A hexadecimal digit in lowercase.
pub open spec fn hex_digit(d: int) -> char {
    if d < 10 {
        (('0' as int) + d) as char
    } else {
        (('a' as int) + d - 10) as char
    }
}

/// Bytes written as lowercase hex (`{:x}` on a digest), two digits per byte.
pub open spec fn hex_lower(bytes: Seq<u8>) -> Seq<char>
    decreases bytes.len(),
{
    if bytes.len() == 0 {
        Seq::empty()
    } else {
        hex_lower(bytes.drop_last()) + seq![
            hex_digit(bytes.last() as int / 16),
            hex_digit(bytes.last() as int % 16),
        ]
    }
}

/// The checksum of a roots object.
pub open spec fn checksum_of(roots: Json) -> Seq<char> {
    hex_lower(md5_digest(roots_digest_input(roots, 3)))
}

/// `doc` with `"checksum"` set from its roots, as saving does; unchanged without roots.
pub open spec fn stamped(doc: Json) -> Json {
    match obj_get(doc, "roots"@) {
        Some(roots) => obj_set(doc, "checksum"@, Json::Str(checksum_of(roots))),
        None => doc,
    }
}

/// Appends `bytes` to `out`.
fn append_bytes(out: &mut Vec<u8>, bytes: &[u8])
    ensures
        final(out)@ == old(out)@ + bytes@,
{
    let ghost start = out@;
    let mut i: usize = 0;
    while i < bytes.len()
        invariant
            out@ == start + bytes@.take(i as int),
            i <= bytes@.len(),
        decreases bytes.len() - i,
    {
        out.push(bytes[i]);
        i = i + 1;
        assert(start + bytes@.take(i as int) =~= (start + bytes@.take(i - 1)).push(bytes@[i - 1]));
    }
    assert(bytes@.take(bytes@.len() as int) =~= bytes@);
}

/// Appends the two little-endian bytes of a code unit.
fn push_unit(out: &mut Vec<u8>, unit: u32)
    requires
        unit < 0x10000,
    ensures
        final(out)@ == old(out)@ + le_bytes(unit),
{
    out.push((unit % 256) as u8);
    out.push((unit / 256) as u8);
    assert(final(out)@ =~= old(out)@ + le_bytes(unit));
}

/// Appends the UTF-16LE encoding of `s`.
fn append_utf16le(out: &mut Vec<u8>, s: &str)
    ensures
        final(out)@ == old(out)@ + utf16le(s@),
{
    let chars = chars_of(s);
    let ghost start = out@;
    let mut i: usize = 0;
    assert(s@.take(0) =~= Seq::<char>::empty());
    while i < chars.len()
        invariant
            chars@ == s@,
            i <= chars@.len(),
            out@ == start + utf16le(s@.take(i as int)),
        decreases chars.len() - i,
    {
        let c = chars[i];
        let u = c as u32;
        proof {
            vstd::utf8::char_u32_cast(c, u);
        }
        let ghost before = out@;
        if u < 0x10000 {
            push_unit(out, u);
        } else {
            let w = u - 0x10000;
            push_unit(out, 0xD800 + w / 1024);
            push_unit(out, 0xDC00 + w % 1024);
        }
        assert(out@ =~= before + char_utf16le(c));
        assert(s@.take(i + 1).drop_last() =~= s@.take(i as int));
        i = i + 1;
        assert(out@ =~= start + utf16le(s@.take(i as int)));
    }
    assert(s@.take(chars@.len() as int) =~= s@);
}

/// Appends the digest input of `node` (see [`node_digest_input`]).
#[verifier::spinoff_prover]
#[verifier::rlimit(80)]
fn append_node(out: &mut Vec<u8>, node: &JsonValue)
    ensures
        final(out)@ == old(out)@ + node_digest_input(node@),
    decreases node@,
{
    let ghost v = node@;
    proof {
        lemma_children_decrease(v);
    }
    let ghost start = out@;
    match get_str(node, "id") {
        Some(id) => append_bytes(out, id.as_bytes()),
        None => {},
    }
    let ghost after_id = out@;
    match get_str(node, "name") {
        Some(name) => append_utf16le(out, name),
        None => {},
    }
    let ghost after_name = out@;
    let t = match get_str(node, "type") {
        Some(t) => t,
        None => "",
    };
    proof {
        reveal_strlit("");
        assert(""@ =~= Seq::<char>::empty());
        assert(t@ == node_type(v));
    }
    append_bytes(out, t.as_bytes());
    let ghost after_type = out@;
    if crate::text::str_eq(t, "url") {
        match get_str(node, "url") {
            Some(url) => append_bytes(out, url.as_bytes()),
            None => {},
        }
    } else if crate::text::str_eq(t, "folder") {
        match get(node, "children") {
            Some(JsonValue::Array(items)) => {
                proof {
                    lemma_array_model(*items);
                }
                let ghost cs = items_model(items@);
                let ghost base = out@;
                let mut i: usize = 0;
                assert(base + children_digest_input(cs, 0) =~= base);
                while i < items.len()
                    invariant
                        cs == items_model(items@),
                        children_of(v) == Some(cs),
                        i <= items@.len(),
                        out@ == base + children_digest_input(cs, i as int),
                        forall|j: int| 0 <= j < cs.len() ==> decreases_to!(v => cs[j]),
                        v == node@,
                    decreases items.len() - i,
                {
                    assert(items@[i as int]@ == cs[i as int]);
                    append_node(out, &items[i]);
                    i = i + 1;
                    assert(out@ =~= base + children_digest_input(cs, i as int));
                }
            },
            _ => {},
        }
    }
    assert(out@ =~= start + node_digest_input(v));
}

/// Writes bytes as lowercase hex.
pub fn hex_string(bytes: &Vec<u8>) -> (r: String)
    ensures
        r@ == hex_lower(bytes@),
{
    let mut out: Vec<char> = Vec::new();
    let mut i: usize = 0;
    assert(bytes@.take(0) =~= Seq::<u8>::empty());
    while i < bytes.len()
        invariant
            i <= bytes@.len(),
            out@ == hex_lower(bytes@.take(i as int)),
        decreases bytes.len() - i,
    {
        let b = bytes[i];
        let hi = b / 16;
        let lo = b % 16;
        let ch = if hi < 10 { (48u8 + hi) as char } else { (87u8 + hi) as char };
        let cl = if lo < 10 { (48u8 + lo) as char } else { (87u8 + lo) as char };
        assert(ch == hex_digit(b as int / 16));
        assert(cl == hex_digit(b as int % 16));
        out.push(ch);
        out.push(cl);
        assert(bytes@.take(i + 1).drop_last() =~= bytes@.take(i as int));
        i = i + 1;
        assert(out@ =~= hex_lower(bytes@.take(i as int)));
    }
    assert(bytes@.take(bytes@.len() as int) =~= bytes@);
    string_from_chars(out.as_slice())
}

/// `compute_checksum`: the checksum Chrome expects for a roots object.
pub fn compute_checksum(roots: &JsonValue) -> (r: String)
    ensures
        r@ == checksum_of(roots@),
{
    let mut input: Vec<u8> = Vec::new();
    let mut i: usize = 0;
    assert(input@ =~= roots_digest_input(roots@, 0));
    while i < 3
        invariant
            i <= 3,
            input@ == roots_digest_input(roots@, i as int),
        decreases 3 - i,
    {
        match get(roots, root_key(i)) {
            Some(root) => append_node(&mut input, root),
            None => {},
        }
        i = i + 1;
        assert(input@ =~= roots_digest_input(roots@, i as int));
    }
    let digest = md5(input.as_slice());
    hex_string(&digest)
}

/// The part of saving a document that computes: sets `"checksum"` from the roots
/// (see [`stamped`]).
pub fn stamp_checksum(doc: &mut JsonValue)
    ensures
        final(doc)@ == stamped(old(doc)@),
{
    let sum = match get(doc, "roots") {
        Some(roots) => compute_checksum(roots),
        None => return,
    };
    proof {
        lemma_get_object(*doc, "roots"@);
    }
    set_member(doc, "checksum", JsonValue::Str(sum));
}

/// A saved document carries the checksum of its roots: the checksum reads back,
/// the roots stay as they were, and stamping again changes nothing.
pub proof fn law_stamp_reads_back(doc: Json)
    requires
        obj_get(doc, "roots"@) is Some,
    ensures
        obj_get(stamped(doc), "checksum"@) == Some(Json::Str(checksum_of(obj_get(doc, "roots"@)->Some_0))),
        obj_get(stamped(doc), "roots"@) == obj_get(doc, "roots"@),
        stamped(stamped(doc)) == stamped(doc),
{
    reveal_strlit("checksum");
    reveal_strlit("roots");
    assert("checksum"@[0] != "roots"@[0]);
    let roots = obj_get(doc, "roots"@)->Some_0;
    let x = Json::Str(checksum_of(roots));
    lemma_set_then_get(doc, "checksum"@, x);
    lemma_set_other(doc, "checksum"@, x, "roots"@);
    lemma_set_same(stamped(doc), "checksum"@, x);
}


/// The 16-bit value of the code unit stored little-endian at `b[i]`, `b[i + 1]`.
pub open spec fn unit_at(b: Seq<u8>, i: int) -> int {
    b[i] as int + 256 * (b[i + 1] as int)
}

/// A name contributes its UTF-16LE encoding: a character below U+10000 is one
/// code unit equal to the character, stored low byte first; any other is a
/// surrogate pair, high then low, whose units give the character back.
pub proof fn law_utf16le_units(c: char)
    ensures
        (c as u32) < 0x10000 ==> char_utf16le(c).len() == 2 && unit_at(char_utf16le(c), 0) == c as u32,
        (c as u32) >= 0x10000 ==> {
            let b = char_utf16le(c);
            &&& b.len() == 4
            &&& 0xD800 <= unit_at(b, 0) < 0xDC00
            &&& 0xDC00 <= unit_at(b, 2) < 0xE000
            &&& 0x10000 + (unit_at(b, 0) - 0xD800) * 1024 + (unit_at(b, 2) - 0xDC00) == c as u32
        },
{
    let u = c as u32;
    if u < 0x10000 {
        assert(((u % 256) as u8) as int == u % 256);
        assert(((u / 256) as u8) as int == u / 256);
    } else {
        let w = (u - 0x10000) as u32;
        let hi = (0xD800 + w / 1024) as u32;
        let lo = (0xDC00 + w % 1024) as u32;
        assert(w < 0x100000);
        assert(((hi % 256) as u8) as int == hi % 256);
        assert(((hi / 256) as u8) as int == hi / 256);
        assert(((lo % 256) as u8) as int == lo % 256);
        assert(((lo / 256) as u8) as int == lo / 256);
        assert(0x10000 + (w / 1024) * 1024 + w % 1024 == u) by (nonlinear_arith)
            requires
                w == u - 0x10000,
        ;
    }
}

/// Reading UTF-16LE bytes back into code points, from the end: a final unit
/// that is a low surrogate joins the unit before it; any other final unit is a
/// code point by itself.
pub open spec fn utf16le_decode(b: Seq<u8>) -> Seq<int>
    decreases b.len(),
{
    if b.len() < 2 {
        Seq::empty()
    } else {
        let n = b.len() as int;
        let last = unit_at(b, n - 2);
        if 0xDC00 <= last < 0xE000 && n >= 4 {
            utf16le_decode(b.take(n - 4)).push(0x10000 + (unit_at(b, n - 4) - 0xD800) * 1024 + (last - 0xDC00))
        } else {
            utf16le_decode(b.take(n - 2)).push(last)
        }
    }
}

/// The code points of a string.
pub open spec fn code_points(s: Seq<char>) -> Seq<int> {
    s.map_values(|c: char| c as u32 as int)
}

/// The bytes a name contributes decode back to the name's code points: the
/// encoding is the UTF-16LE encoding and loses nothing.
pub proof fn law_utf16le_decodes_back(s: Seq<char>)
    ensures
        utf16le_decode(utf16le(s)) == code_points(s),
    decreases s.len(),
{
    if s.len() > 0 {
        let p = s.drop_last();
        let c = s.last();
        law_utf16le_decodes_back(p);
        law_utf16le_units(c);
        let a = utf16le(p);
        let e = char_utf16le(c);
        let b = utf16le(s);
        assert(b == a + e);
        let n = b.len() as int;
        if (c as u32) < 0x10000 {
            vstd::utf8::char_is_scalar(c);
            assert(b.take(n - 2) =~= a);
            assert(unit_at(b, n - 2) == unit_at(e, 0));
            assert(!(0xDC00 <= unit_at(b, n - 2) < 0xE000));
            assert(utf16le_decode(b) == utf16le_decode(a).push(c as u32 as int));
        } else {
            assert(b.take(n - 4) =~= a);
            assert(unit_at(b, n - 2) == unit_at(e, 2));
            assert(unit_at(b, n - 4) == unit_at(e, 0));
            assert(utf16le_decode(b) == utf16le_decode(a).push(c as u32 as int));
        }
        assert(code_points(s) =~= code_points(p).push(c as u32 as int));
    } else {
        assert(code_points(s) =~= Seq::<int>::empty());
    }
}

/// Different names contribute different bytes.
pub proof fn law_utf16le_injective(s: Seq<char>, t: Seq<char>)
    requires
        utf16le(s) == utf16le(t),
    ensures
        s == t,
{
    law_utf16le_decodes_back(s);
    law_utf16le_decodes_back(t);
    assert(code_points(s).len() == s.len());
    assert(code_points(t).len() == t.len());
    assert forall|k: int| 0 <= k < s.len() implies s[k] == t[k] by {
        assert(code_points(s)[k] == code_points(t)[k]);
        assert((s[k] as u32) == (t[k] as u32));
        vstd::utf8::char_u32_cast(s[k], s[k] as u32);
        vstd::utf8::char_u32_cast(t[k], s[k] as u32);
    }
    assert(s =~= t);
}
} // verus!
