//! What checking a bookmark reports: the status text shown for it and whether it
//! counts as alive.
use vstd::prelude::*;
use vstd::string::StringSliceAdditionalSpecFns;
use vstd::utf8::{decode_utf8, encode_utf8, is_char_boundary};

use crate::entries::{results_model, BookmarkEntry, CheckResult, ResultView};
use crate::text::{concat, owned};
use crate::tree::{kept, without};

verus! {

/// How the HEAD request for a bookmark ended.
#[derive(Debug, PartialEq, Eq)]
pub enum RequestOutcome {
    /// The server answered with this status code and status text.
    Response { code: u16, text: String },
    /// No answer within the timeout.
    Timeout,
    /// No connection could be made.
    Connect,
    /// Any other failure, with its message.
    Failed(String),
}

/// A failure message as shown: cut after its 20th byte and marked with `...`
/// when longer than 20 bytes.
pub open spec fn short_message(msg: Seq<char>) -> Seq<char> {
    let bytes = encode_utf8(msg);
    if bytes.len() > 20 {
        decode_utf8(bytes.subrange(0, 20)) + "..."@
    } else {
        msg
    }
}

/// A message longer than 20 bytes has a character boundary after its 20th byte.
pub open spec fn cuttable(msg: Seq<char>) -> bool {
    encode_utf8(msg).len() > 20 ==> is_char_boundary(encode_utf8(msg), 20)
}

/// The status code and text reported for an outcome: the server's, or code 0
/// with `TIMEOUT`, `CONN_ERR` or the shortened failure message.
pub open spec fn outcome_status(o: RequestOutcome) -> (u16, Seq<char>) {
    match o {
        RequestOutcome::Response { code, text } => (code, text@),
        RequestOutcome::Timeout => (0u16, "TIMEOUT"@),
        RequestOutcome::Connect => (0u16, "CONN_ERR"@),
        RequestOutcome::Failed(m) => (0u16, short_message(m@)),
    }
}

/// Shortens a failure message (see [`short_message`]).
pub fn short_error(msg: &str) -> (r: String)
    requires
        cuttable(msg@),
    ensures
        r@ == short_message(msg@),
{
    if msg.as_bytes().len() > 20 {
        let (head, _tail) = msg.split_at(20);
        proof {
            vstd::utf8::encode_utf8_decode_utf8(head@);
            assert(head.spec_bytes() == encode_utf8(head@));
            assert(encode_utf8(head@) =~= encode_utf8(msg@).subrange(0, 20));
            assert(decode_utf8(encode_utf8(msg@).subrange(0, 20)) == head@);
        }
        concat(head, "...")
    } else {
        owned(msg)
    }
}

/// The status code and text for how a request ended (see [`outcome_status`]).
pub fn status_of(outcome: RequestOutcome) -> (r: (u16, String))
    requires
        outcome matches RequestOutcome::Failed(m) ==> cuttable(m@),
    ensures
        (r.0, r.1@) == outcome_status(outcome),
{
    match outcome {
        RequestOutcome::Response { code, text } => (code, text),
        RequestOutcome::Timeout => (0, owned("TIMEOUT")),
        RequestOutcome::Connect => (0, owned("CONN_ERR")),
        RequestOutcome::Failed(m) => (0, short_error(m.as_str())),
    }
}

/// A status code in `200..400` means the bookmark is alive.
pub open spec fn valid_code(code: u16) -> bool {
    200 <= code < 400
}

/// Whether a status code means the bookmark is alive (see [`valid_code`]).
pub fn is_valid_status(code: u16) -> (r: bool)
    ensures
        r == valid_code(code),
{
    200 <= code && code < 400
}

/// The result for a bookmark whose request ended with `code` and `status`.
pub fn url_result(entry: BookmarkEntry, code: u16, status: String) -> (r: CheckResult)
    ensures
        r@ == (ResultView {
            folder: entry@.folder,
            name: entry@.name,
            url: entry@.url,
            status: status@,
            is_valid: valid_code(code),
        }),
{
    CheckResult {
        folder: entry.folder,
        name: entry.name,
        url: entry.url,
        status,
        is_valid: is_valid_status(code),
    }
}

/// The result for an empty folder, which is never requested: `EMPTY_FOLDER`,
/// not valid.
pub fn folder_result(entry: BookmarkEntry) -> (r: CheckResult)
    ensures
        r@ == (ResultView {
            folder: entry@.folder,
            name: entry@.name,
            url: entry@.url,
            status: "EMPTY_FOLDER"@,
            is_valid: false,
        }),
{
    CheckResult {
        folder: entry.folder,
        name: entry.name,
        url: entry.url,
        status: owned("EMPTY_FOLDER"),
        is_valid: false,
    }
}

/// The result is valid.
pub open spec fn is_valid_result() -> spec_fn(ResultView) -> bool {
    |r: ResultView| r.is_valid
}

/// The number of invalid results among `rs[..n]`.
pub open spec fn invalid_count(rs: Seq<ResultView>, n: int) -> nat
    decreases n,
{
    if n <= 0 {
        0
    } else {
        invalid_count(rs, n - 1) + if rs[n - 1].is_valid {
            0nat
        } else {
            1nat
        }
    }
}

/// The count never exceeds the number of results counted.
pub proof fn lemma_invalid_count_bound(rs: Seq<ResultView>, n: int)
    requires
        0 <= n,
    ensures
        invalid_count(rs, n) <= n,
    decreases n,
{
    if n > 0 {
        lemma_invalid_count_bound(rs, n - 1);
    }
}

/// The number of invalid results.
pub fn count_invalid(results: &Vec<CheckResult>) -> (r: usize)
    ensures
        r == invalid_count(results_model(results@), results@.len() as int),
{
    let ghost rs = results_model(results@);
    let mut n: usize = 0;
    let mut i: usize = 0;
    while i < results.len()
        invariant
            rs == results_model(results@),
            i <= results@.len(),
            n == invalid_count(rs, i as int),
        decreases results.len() - i,
    {
        proof {
            lemma_invalid_count_bound(rs, i as int);
        }
        if !results[i].is_valid {
            n = n + 1;
        }
        i = i + 1;
    }
    n
}

/// The results a report shows: all of them, or only the invalid ones.
pub open spec fn shown_results(rs: Seq<ResultView>, invalid_only: bool) -> Seq<ResultView> {
    if invalid_only {
        without(rs, is_valid_result())
    } else {
        rs
    }
}

/// The results a report shows, in order (see [`shown_results`]).
pub fn filter_results(results: &Vec<CheckResult>, invalid_only: bool) -> (r: Vec<&CheckResult>)
    ensures
        r@.len() == shown_results(results_model(results@), invalid_only).len(),
        forall|k: int|
            0 <= k < r@.len() ==> (#[trigger] r@[k])@ == shown_results(
                results_model(results@),
                invalid_only,
            )[k],
{
    let ghost rs = results_model(results@);
    let mut out: Vec<&CheckResult> = Vec::new();
    let mut i: usize = 0;
    while i < results.len()
        invariant
            rs == results_model(results@),
            i <= results@.len(),
            out@.len() == (if invalid_only {
                kept(rs, is_valid_result(), i as int)
            } else {
                rs.take(i as int)
            }).len(),
            forall|k: int|
                0 <= k < out@.len() ==> (#[trigger] out@[k])@ == (if invalid_only {
                    kept(rs, is_valid_result(), i as int)
                } else {
                    rs.take(i as int)
                })[k],
        decreases results.len() - i,
    {
        let r = &results[i];
        assert(r@ == rs[i as int]);
        if !invalid_only || !r.is_valid {
            out.push(r);
        }
        assert(rs.take(i + 1) =~= rs.take(i as int).push(rs[i as int]));
        i = i + 1;
    }
    assert(rs.take(i as int) =~= rs);
    out
}

} // verus!
