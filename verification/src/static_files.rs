//! Serving files from a directory.

use crate::field_lines::add_field;
use crate::numbers::{
    decimal, law_decimal_reads_back, lemma_decimal_digits, number_in, number_text, parse_number,
};
use crate::request::pair_value;
use crate::response::{
    with_content, HttpResponse, HttpResponseBodyInitialized, HttpStatusCode,
    PayloadModel, ResponseModel,
};
use crate::router::{skip_slashes, without_slashes};
use crate::server::{call_response, HttpCall};
use crate::text::{
    bytes_equal, law_rest_after, position, position_of, push_text, rest_after, starts_with,
    str_equal, text_of,
};
use vstd::prelude::*;
use vstd::slice::slice_subrange;
use vstd::string::{is_ascii, StringSliceAdditionalSpecFns};
use vstd::utf8::*;

verus! {

/// What is served: the files of a directory and, where no file is named, one of
/// them as the index.
pub struct StaticFileOptions {
    pub dir: &'static str,
    pub index: Option<&'static str>,
}

// ── Which file ─────────────────────────────────────────────────────────────

/// The path below the directory that a call asks for.
pub open spec fn asked_path(params: Seq<(Seq<u8>, Seq<u8>)>) -> Seq<u8> {
    match pair_value(params, "__path__".spec_bytes()) {
        Some(v) => without_slashes(v),
        None => Seq::empty(),
    }
}

/// The path below the directory that a call asks for.
pub fn requested_tail(call: &HttpCall) -> (r: String)
    ensures
        encode_utf8(r@) == asked_path(call@.request.path_params),
{
    match call.path_param("__path__") {
        Some(v) => skip_slashes(v).to_owned(),
        None => {
            let r = String::new();
            assert(encode_utf8(r@) =~= Seq::<u8>::empty());
            r
        },
    }
}

/// What is done about a call: an answer without a body, the index, or the file
/// that was asked for.
#[derive(Debug, Clone, Copy, PartialEq, Eq, Structural)]
pub enum StaticDecision {
    Answer(HttpStatusCode),
    Index,
    File,
}

/// The parts of paths between the separators.
pub open spec fn parts(path: Seq<Vec<u8>>) -> Seq<Seq<u8>> {
    path.map_values(|p: Vec<u8>| p@)
}

pub open spec fn optional_parts(path: Option<Vec<Vec<u8>>>) -> Option<Seq<Seq<u8>>> {
    match path {
        Some(p) => Some(parts(p@)),
        None => None,
    }
}

/// What is done about a call for `asked` below a directory: the index where
/// nothing is asked for, where there is no such file and where it is a directory
/// itself; a refusal where what is asked for resolves to something outside of
/// the directory. `base` and `target` are what the directory and the path
/// resolve to.
pub open spec fn static_decision(
    asked: Seq<u8>,
    base: Option<Seq<Seq<u8>>>,
    target: Option<Seq<Seq<u8>>>,
    target_is_dir: bool,
) -> StaticDecision {
    if asked.len() == 0 {
        StaticDecision::Index
    } else if base is None {
        StaticDecision::Answer(HttpStatusCode::InternalServerError)
    } else if target is None {
        StaticDecision::Index
    } else if !base->Some_0.is_prefix_of(target->Some_0) {
        StaticDecision::Answer(HttpStatusCode::Forbidden)
    } else if target_is_dir {
        StaticDecision::Index
    } else {
        StaticDecision::File
    }
}

/// Whether a path lies in a directory.
fn is_within(base: &Vec<Vec<u8>>, target: &Vec<Vec<u8>>) -> (r: bool)
    ensures
        r == parts(base@).is_prefix_of(parts(target@)),
{
    let n: usize = base.len();
    if target.len() < n {
        return false;
    }
    for i in 0..n
        invariant
            n == base@.len(),
            n <= target@.len(),
            forall|j: int| 0 <= j < i ==> #[trigger] parts(base@)[j] == parts(target@)[j],
    {
        if !bytes_equal(base[i].as_slice(), target[i].as_slice()) {
            assert(parts(base@)[i as int] != parts(target@).subrange(0, n as int)[i as int]);
            return false;
        }
        assert(parts(base@)[i as int] == parts(target@)[i as int]);
    }
    assert(parts(base@) =~= parts(target@).subrange(0, n as int));
    true
}

/// What is done about a call for `tail` below a directory. `base` and `target`
/// are what the directory and the path resolve to, part by part.
pub fn decide_static(
    tail: &str,
    base: &Option<Vec<Vec<u8>>>,
    target: &Option<Vec<Vec<u8>>>,
    target_is_dir: bool,
) -> (r: StaticDecision)
    ensures
        r == static_decision(
            tail.spec_bytes(),
            optional_parts(*base),
            optional_parts(*target),
            target_is_dir,
        ),
{
    if tail.as_bytes().len() == 0 {
        return StaticDecision::Index;
    }
    let base = match base {
        Some(b) => b,
        None => return StaticDecision::Answer(HttpStatusCode::InternalServerError),
    };
    let target = match target {
        Some(t) => t,
        None => return StaticDecision::Index,
    };
    if !is_within(base, target) {
        StaticDecision::Answer(HttpStatusCode::Forbidden)
    } else if target_is_dir {
        StaticDecision::Index
    } else {
        StaticDecision::File
    }
}

/// What is done where the index is to be served: it is forbidden where there is
/// no index, and not found where the file does not exist.
pub open spec fn index_decision(has_index: bool, exists: bool) -> StaticDecision {
    if !has_index {
        StaticDecision::Answer(HttpStatusCode::Forbidden)
    } else if !exists {
        StaticDecision::Answer(HttpStatusCode::NotFound)
    } else {
        StaticDecision::File
    }
}

/// What is done where the index is to be served. `exists` says whether there is
/// such a file.
pub fn decide_index(index: &Option<&'static str>, exists: bool) -> (r: StaticDecision)
    ensures
        r == index_decision(*index is Some, exists),
{
    if index.is_none() {
        StaticDecision::Answer(HttpStatusCode::Forbidden)
    } else if !exists {
        StaticDecision::Answer(HttpStatusCode::NotFound)
    } else {
        StaticDecision::File
    }
}

/// An answer without a body.
pub fn bare_answer<R>(call: &HttpCall, status: HttpStatusCode) -> (r: HttpResponse<
    HttpResponseBodyInitialized,
    R,
>)
    ensures
        r.wf(),
        r@ == (ResponseModel { status, ..call_response::<R>(call@) }),
{
    call.response().status_code(status).empty()
}

// ── Which part of it ───────────────────────────────────────────────────────

/// A number, or another where the text is none.
pub open spec fn number_or(s: Seq<u8>, otherwise: nat) -> nat {
    match number_in(s, u64::MAX as nat) {
        Some(n) => n,
        None => otherwise,
    }
}

/// The first and the last byte of a file that a `Range` header asks for, where
/// the file has them: `bytes=`, a first byte, a hyphen and a last byte. Without
/// a first byte it starts at zero, without a last one it goes to the end.
pub open spec fn asked_range(header: Option<Seq<u8>>, file_len: nat) -> Option<(nat, nat)> {
    match header {
        None => None,
        Some(h) => if !"bytes=".spec_bytes().is_prefix_of(h) {
            None
        } else {
            let range = h.skip("bytes=".spec_bytes().len() as int);
            let hyphen = position(range, 45);
            let rest = rest_after(range, hyphen);
            let start = number_or(range.take(hyphen), 0);
            let last = if file_len > 0 {
                (file_len - 1) as nat
            } else {
                0
            };
            let end = if hyphen < range.len() {
                number_or(rest.take(position(rest, 45)), last)
            } else {
                last
            };
            if start <= end && end < file_len {
                Some((start, end))
            } else {
                None
            }
        },
    }
}

fn parse_or(s: &[u8], otherwise: u64) -> (r: u64)
    ensures
        r == number_or(s@, otherwise as nat),
{
    match parse_number(s, u64::MAX) {
        Some(n) => n,
        None => otherwise,
    }
}

/// The first and the last byte of a file of `file_len` bytes that a call asks
/// for, where it asks for a part of it.
pub fn requested_range(header: Option<&str>, file_len: u64) -> (r: Option<(u64, u64)>)
    ensures
        match r {
            Some(p) => asked_range(
                match header {
                    Some(h) => Some(h.spec_bytes()),
                    None => None,
                },
                file_len as nat,
            ) == Some((p.0 as nat, p.1 as nat)),
            None => asked_range(
                match header {
                    Some(h) => Some(h.spec_bytes()),
                    None => None,
                },
                file_len as nat,
            ) is None,
        },
{
    proof {
        reveal_strlit("bytes=");
        assert(is_ascii("bytes="));
    }
    let h = match header {
        Some(h) => h.as_bytes(),
        None => return None,
    };
    if !starts_with(h, "bytes=".as_bytes()) {
        return None;
    }
    let range = slice_subrange(h, 6, h.len());
    assert(range@ =~= h@.skip(6));
    let n: usize = range.len();
    let hyphen: usize = position_of(range, 45);
    let first = slice_subrange(range, 0, hyphen);
    assert(first@ =~= range@.take(hyphen as int));
    let start: u64 = parse_or(first, 0);
    let last: u64 = if file_len > 0 { file_len - 1 } else { 0 };
    let end: u64 = if hyphen < n {
        let rest = slice_subrange(range, hyphen + 1, n);
        assert(rest@ =~= rest_after(range@, hyphen as int));
        let second = slice_subrange(rest, 0, position_of(rest, 45));
        assert(second@ =~= rest@.take(position(rest@, 45)));
        parse_or(second, last)
    } else {
        last
    };
    if start <= end && end < file_len {
        Some((start, end))
    } else {
        None
    }
}

/// How a part of a file is named: its first and its last byte, and how many the
/// file has.
pub open spec fn range_text(start: nat, end: nat, file_len: nat) -> Seq<u8> {
    "bytes ".spec_bytes() + decimal(start) + "-".spec_bytes() + decimal(end) + "/".spec_bytes()
        + decimal(file_len)
}

fn content_range(start: u64, end: u64, file_len: u64) -> (r: String)
    ensures
        encode_utf8(r@) == range_text(start as nat, end as nat, file_len as nat),
{
    let mut text: Vec<u8> = Vec::new();
    push_text(&mut text, "bytes ");
    push_text(&mut text, number_text(start).as_str());
    push_text(&mut text, "-");
    push_text(&mut text, number_text(end).as_str());
    push_text(&mut text, "/");
    push_text(&mut text, number_text(file_len).as_str());
    assert(text@ =~= range_text(start as nat, end as nat, file_len as nat));
    text_of(text)
}

/// The answer with a part of a file, which `reader` yields.
pub fn range_answer<R>(
    call: &HttpCall,
    reader: R,
    range: (u64, u64),
    file_len: u64,
    mime: &str,
) -> (r: HttpResponse<HttpResponseBodyInitialized, R>)
    requires
        range.0 <= range.1 < file_len,
    ensures
        r.wf(),
        ({
            let fresh = call_response::<R>(call@);
            let len = (range.1 - range.0 + 1) as nat;
            r@ == (ResponseModel {
                status: HttpStatusCode::PartialContent,
                body: Some(
                    PayloadModel::Stream {
                        reader,
                        content_length: len,
                        content_type: Some(mime.spec_bytes()),
                    },
                ),
                fields: with_content(
                    add_field(
                        add_field(
                            fresh.fields,
                            "content-range".spec_bytes(),
                            range_text(range.0 as nat, range.1 as nat, file_len as nat),
                        ),
                        "accept-ranges".spec_bytes(),
                        "bytes".spec_bytes(),
                    ),
                    mime.spec_bytes(),
                    len,
                ),
                ..fresh
            })
        }),
{
    let (start, end): (u64, u64) = range;
    call.response().status_code(HttpStatusCode::PartialContent).__add_header_internal(
        "content-range",
        content_range(start, end, file_len).as_str(),
    ).__add_header_internal("accept-ranges", "bytes").stream(
        reader,
        end - start + 1,
        mime.to_owned(),
    )
}

/// The answer with a whole file, which `reader` yields. It says that parts of the
/// file can be asked for.
pub fn file_answer<R>(call: &HttpCall, reader: R, file_len: u64, mime: &str) -> (r: HttpResponse<
    HttpResponseBodyInitialized,
    R,
>)
    ensures
        r.wf(),
        ({
            let fresh = call_response::<R>(call@);
            r@ == (ResponseModel {
                body: Some(
                    PayloadModel::Stream {
                        reader,
                        content_length: file_len as nat,
                        content_type: Some(mime.spec_bytes()),
                    },
                ),
                fields: with_content(
                    add_field(fresh.fields, "accept-ranges".spec_bytes(), "bytes".spec_bytes()),
                    mime.spec_bytes(),
                    file_len as nat,
                ),
                ..fresh
            })
        }),
{
    call.response().__add_header_internal("accept-ranges", "bytes").stream(
        reader,
        file_len,
        mime.to_owned(),
    )
}

// ── Which type ─────────────────────────────────────────────────────────────

/// The content type of a file with an extension.
pub open spec fn mime_of(extension: Option<Seq<char>>) -> Seq<u8> {
    match extension {
        None => "application/octet-stream".spec_bytes(),
        Some(e) => if e == "html"@ || e == "htm"@ {
            "text/html; charset=utf-8".spec_bytes()
        } else if e == "css"@ {
            "text/css; charset=utf-8".spec_bytes()
        } else if e == "js"@ {
            "application/javascript".spec_bytes()
        } else if e == "json"@ {
            "application/json".spec_bytes()
        } else if e == "png"@ {
            "image/png".spec_bytes()
        } else if e == "jpg"@ || e == "jpeg"@ {
            "image/jpeg".spec_bytes()
        } else if e == "gif"@ {
            "image/gif".spec_bytes()
        } else if e == "svg"@ {
            "image/svg+xml".spec_bytes()
        } else if e == "ico"@ {
            "image/x-icon".spec_bytes()
        } else if e == "woff"@ {
            "font/woff".spec_bytes()
        } else if e == "woff2"@ {
            "font/woff2".spec_bytes()
        } else if e == "ttf"@ {
            "font/ttf".spec_bytes()
        } else if e == "pdf"@ {
            "application/pdf".spec_bytes()
        } else if e == "txt"@ {
            "text/plain; charset=utf-8".spec_bytes()
        } else if e == "xml"@ {
            "application/xml".spec_bytes()
        } else if e == "wasm"@ {
            "application/wasm".spec_bytes()
        } else {
            "application/octet-stream".spec_bytes()
        },
    }
}

/// The content type of a file with an extension.
pub fn mime_from_extension(extension: Option<&str>) -> (r: &'static str)
    ensures
        r.spec_bytes() == mime_of(
            match extension {
                Some(e) => Some(e@),
                None => None,
            },
        ),
{
    let e = match extension {
        Some(e) => e,
        None => return "application/octet-stream",
    };
    if str_equal(e, "html") || str_equal(e, "htm") {
        "text/html; charset=utf-8"
    } else if str_equal(e, "css") {
        "text/css; charset=utf-8"
    } else if str_equal(e, "js") {
        "application/javascript"
    } else if str_equal(e, "json") {
        "application/json"
    } else if str_equal(e, "png") {
        "image/png"
    } else if str_equal(e, "jpg") || str_equal(e, "jpeg") {
        "image/jpeg"
    } else if str_equal(e, "gif") {
        "image/gif"
    } else if str_equal(e, "svg") {
        "image/svg+xml"
    } else if str_equal(e, "ico") {
        "image/x-icon"
    } else if str_equal(e, "woff") {
        "font/woff"
    } else if str_equal(e, "woff2") {
        "font/woff2"
    } else if str_equal(e, "ttf") {
        "font/ttf"
    } else if str_equal(e, "pdf") {
        "application/pdf"
    } else if str_equal(e, "txt") {
        "text/plain; charset=utf-8"
    } else if str_equal(e, "xml") {
        "application/xml"
    } else if str_equal(e, "wasm") {
        "application/wasm"
    } else {
        "application/octet-stream"
    }
}

// ── Laws ───────────────────────────────────────────────────────────────────

/// A file that was asked for is served only where it lies in the directory.
pub proof fn law_no_traversal(
    asked: Seq<u8>,
    base: Option<Seq<Seq<u8>>>,
    target: Option<Seq<Seq<u8>>>,
    target_is_dir: bool,
)
    requires
        static_decision(asked, base, target, target_is_dir) is File,
    ensures
        base is Some,
        target is Some,
        base->Some_0.is_prefix_of(target->Some_0),
        !target_is_dir,
{
}

/// A part that is served lies in the file.
pub proof fn law_range_in_file(header: Option<Seq<u8>>, file_len: nat)
    ensures
        asked_range(header, file_len) matches Some(p) ==> p.0 <= p.1 < file_len,
{
}

/// What is done about a call, for every way in which the directory and the path can
/// resolve. Nothing asked for, no such file, and a directory lead to the index; a
/// directory that does not resolve is an error; a path that resolves to what does
/// not lie in the directory is forbidden; only a file in the directory is served.
pub proof fn law_static_decision(
    asked: Seq<u8>,
    base: Option<Seq<Seq<u8>>>,
    target: Option<Seq<Seq<u8>>>,
    target_is_dir: bool,
)
    ensures
        ({
            let decision = static_decision(asked, base, target, target_is_dir);
            let inside = base is Some && target is Some && base->Some_0.len()
                <= target->Some_0.len() && target->Some_0.take(base->Some_0.len() as int)
                == base->Some_0;
            &&& asked.len() == 0 ==> decision is Index
            &&& asked.len() > 0 && base is None ==> decision == StaticDecision::Answer(
                HttpStatusCode::InternalServerError,
            )
            &&& asked.len() > 0 && base is Some && target is None ==> decision is Index
            &&& asked.len() > 0 && base is Some && target is Some && !inside ==> decision
                == StaticDecision::Answer(HttpStatusCode::Forbidden)
            &&& asked.len() > 0 && inside && target_is_dir ==> decision is Index
            &&& asked.len() > 0 && inside && !target_is_dir ==> decision is File
        }),
{
}

/// The index is served where there is one and its file exists; without one it is
/// forbidden, and without the file it is not found.
pub proof fn law_index_decision(has_index: bool, exists: bool)
    ensures
        index_decision(has_index, exists) is File <==> has_index && exists,
        index_decision(has_index, exists) == StaticDecision::Answer(HttpStatusCode::Forbidden)
            <==> !has_index,
        index_decision(has_index, exists) == StaticDecision::Answer(HttpStatusCode::NotFound)
            <==> has_index && !exists,
{
}

/// What a call asks for below a directory is what the catch-all stands for, without
/// the slashes in front, and nothing where there is no catch-all.
pub proof fn law_asked_path(params: Seq<(Seq<u8>, Seq<u8>)>)
    ensures
        match pair_value(params, "__path__".spec_bytes()) {
            None => asked_path(params).len() == 0,
            Some(v) => {
                let n = v.len() - asked_path(params).len();
                &&& 0 <= n <= v.len()
                &&& asked_path(params) == v.skip(n)
                &&& forall|i: int| 0 <= i < n ==> #[trigger] v[i] == 47
                &&& n < v.len() ==> v[n] != 47
            },
        },
{
    if let Some(v) = pair_value(params, "__path__".spec_bytes()) {
        lemma_slashes_off(v);
    }
}

proof fn lemma_slashes_off(s: Seq<u8>)
    ensures
        ({
            let n = s.len() - without_slashes(s).len();
            &&& 0 <= n <= s.len()
            &&& without_slashes(s) == s.skip(n)
            &&& forall|i: int| 0 <= i < n ==> #[trigger] s[i] == 47
            &&& n < s.len() ==> s[n] != 47
        }),
    decreases s.len(),
{
    if s.len() > 0 && s[0] == 47 {
        let rest = s.skip(1);
        lemma_slashes_off(rest);
        let n = s.len() - without_slashes(s).len();
        assert(rest.skip(n - 1) =~= s.skip(n));
        assert forall|i: int| 0 <= i < n implies #[trigger] s[i] == 47 by {
            if i > 0 {
                assert(rest[i - 1] == s[i]);
            }
        }
        if n < s.len() {
            assert(rest[n - 1] == s[n]);
        }
    } else {
        assert(s.skip(0) =~= s);
    }
}

/// The part of a file that a `Range` header asks for. Behind `bytes=` stand the
/// first byte and, behind a hyphen, the last one, up to another hyphen if there is
/// one; a first byte that is no number counts as zero, and a last byte that is none
/// as the last of the file. What does not lie in the file is not asked for.
#[verifier::spinoff_prover]
pub proof fn law_range_parts(first: Seq<u8>, last: Seq<u8>, more: Seq<u8>, file_len: nat)
    requires
        forall|i: int| 0 <= i < first.len() ==> #[trigger] first[i] != 45,
        forall|i: int| 0 <= i < last.len() ==> #[trigger] last[i] != 45,
    ensures
        ({
            let max = u64::MAX as nat;
            let start = match number_in(first, max) {
                Some(n) => n as int,
                None => 0,
            };
            let end = match number_in(last, max) {
                Some(n) => n as int,
                None => if file_len > 0 {
                    file_len - 1
                } else {
                    0
                },
            };
            let to_end = if file_len > 0 {
                file_len - 1
            } else {
                0
            };
            let both = "bytes=".spec_bytes() + (first + seq![45u8] + last);
            let longer = "bytes=".spec_bytes() + (first + seq![45u8] + (last + seq![45u8] + more));
            let alone = "bytes=".spec_bytes() + first;
            &&& start <= end < file_len ==> asked_range(Some(both), file_len) == Some(
                (start as nat, end as nat),
            )
            &&& !(start <= end < file_len) ==> asked_range(Some(both), file_len) is None
            &&& asked_range(Some(longer), file_len) == asked_range(Some(both), file_len)
            &&& start <= to_end < file_len ==> asked_range(Some(alone), file_len) == Some(
                (start as nat, to_end as nat),
            )
            &&& !(start <= to_end < file_len) ==> asked_range(Some(alone), file_len) is None
        }),
{
    let label = "bytes=".spec_bytes();
    let range = first + seq![45u8] + last;
    let wide = first + seq![45u8] + (last + seq![45u8] + more);
    assert((label + range).subrange(0, label.len() as int) =~= label);
    assert((label + wide).subrange(0, label.len() as int) =~= label);
    assert((label + first).subrange(0, label.len() as int) =~= label);
    assert((label + range).skip(label.len() as int) =~= range);
    assert((label + wide).skip(label.len() as int) =~= wide);
    assert((label + first).skip(label.len() as int) =~= first);
    law_rest_after(first, 45, last);
    law_rest_after(first, 45, last + seq![45u8] + more);
    law_rest_after(last, 45, more);
    assert(last.take(last.len() as int) =~= last);
    assert(first.take(first.len() as int) =~= first);
}

/// A part that is asked for by its first and its last byte in decimal digits is that
/// part, where the file has it.
pub proof fn law_range_reads_back(start: nat, end: nat, file_len: nat)
    requires
        start <= u64::MAX,
        end <= u64::MAX,
    ensures
        asked_range(
            Some("bytes=".spec_bytes() + (decimal(start) + seq![45u8] + decimal(end))),
            file_len,
        ) == (if start <= end && end < file_len {
            Some((start, end))
        } else {
            None
        }),
{
    lemma_decimal_digits(start);
    lemma_decimal_digits(end);
    law_decimal_reads_back(start, u64::MAX as nat);
    law_decimal_reads_back(end, u64::MAX as nat);
    let a = decimal(start);
    let b = decimal(end);
    assert forall|i: int| 0 <= i < a.len() implies #[trigger] a[i] != 45 by {}
    assert forall|i: int| 0 <= i < b.len() implies #[trigger] b[i] != 45 by {}
    law_range_parts(a, b, Seq::empty(), file_len);
}

/// Without a `Range` header, or with one that does not start with `bytes=`, no part
/// is asked for.
pub proof fn law_no_range(header: Option<Seq<u8>>, file_len: nat)
    requires
        header matches Some(h) ==> !"bytes=".spec_bytes().is_prefix_of(h),
    ensures
        asked_range(header, file_len) is None,
{
}

/// How a part of a file is named: the first and the last byte and the length of the
/// file in decimal digits.
pub proof fn law_range_text(start: nat, end: nat, file_len: nat)
    ensures
        range_text(start, end, file_len) == seq![98u8, 121, 116, 101, 115, 32] + decimal(start)
            + seq![45u8] + decimal(end) + seq![47u8] + decimal(file_len),
{
    reveal_strlit("bytes ");
    reveal_strlit("-");
    reveal_strlit("/");
    assert(is_ascii("bytes ") && is_ascii("-") && is_ascii("/"));
    assert("bytes ".spec_bytes() =~= seq![98u8, 121, 116, 101, 115, 32]);
    assert("-".spec_bytes() =~= seq![45u8]);
    assert("/".spec_bytes() =~= seq![47u8]);
}

/// The content type of a file goes by its extension, and is that of any bytes where
/// there is none or it is not known.
#[verifier::spinoff_prover]
pub proof fn law_content_types(e: Seq<char>)
    ensures
        mime_of(None) == "application/octet-stream".spec_bytes(),
        e == "html"@ || e == "htm"@ ==> mime_of(Some(e)) == "text/html; charset=utf-8".spec_bytes(),
        e == "css"@ ==> mime_of(Some(e)) == "text/css; charset=utf-8".spec_bytes(),
        e == "txt"@ ==> mime_of(Some(e)) == "text/plain; charset=utf-8".spec_bytes(),
        e == "js"@ ==> mime_of(Some(e)) == "application/javascript".spec_bytes(),
        e == "json"@ ==> mime_of(Some(e)) == "application/json".spec_bytes(),
        e == "xml"@ ==> mime_of(Some(e)) == "application/xml".spec_bytes(),
        e == "pdf"@ ==> mime_of(Some(e)) == "application/pdf".spec_bytes(),
        e == "wasm"@ ==> mime_of(Some(e)) == "application/wasm".spec_bytes(),
        e == "png"@ ==> mime_of(Some(e)) == "image/png".spec_bytes(),
        e == "jpg"@ || e == "jpeg"@ ==> mime_of(Some(e)) == "image/jpeg".spec_bytes(),
        e == "gif"@ ==> mime_of(Some(e)) == "image/gif".spec_bytes(),
        e == "svg"@ ==> mime_of(Some(e)) == "image/svg+xml".spec_bytes(),
        e == "ico"@ ==> mime_of(Some(e)) == "image/x-icon".spec_bytes(),
        e == "woff"@ ==> mime_of(Some(e)) == "font/woff".spec_bytes(),
        e == "woff2"@ ==> mime_of(Some(e)) == "font/woff2".spec_bytes(),
        e == "ttf"@ ==> mime_of(Some(e)) == "font/ttf".spec_bytes(),
        e != "html"@ && e != "htm"@ && e != "css"@ && e != "txt"@ && e != "js"@ && e != "json"@ && e
            != "xml"@ && e != "pdf"@ && e != "wasm"@ && e != "png"@ && e != "jpg"@ && e != "jpeg"@
            && e != "gif"@ && e != "svg"@ && e != "ico"@ && e != "woff"@ && e != "woff2"@ && e
            != "ttf"@ ==> mime_of(Some(e)) == "application/octet-stream".spec_bytes(),
{
    reveal_strlit("html");
    reveal_strlit("htm");
    reveal_strlit("css");
    reveal_strlit("txt");
    reveal_strlit("js");
    reveal_strlit("json");
    reveal_strlit("xml");
    reveal_strlit("pdf");
    reveal_strlit("wasm");
    reveal_strlit("png");
    reveal_strlit("jpg");
    reveal_strlit("jpeg");
    reveal_strlit("gif");
    reveal_strlit("svg");
    reveal_strlit("ico");
    reveal_strlit("woff");
    reveal_strlit("woff2");
    reveal_strlit("ttf");
    assert("css"@[0] == 'c' && "htm"@[0] == 'h' && "png"@[0] == 'p' && "jpg"@[0] == 'j'
        && "gif"@[0] == 'g' && "svg"@[0] == 's' && "ico"@[0] == 'i' && "xml"@[0] == 'x');
    assert("txt"@[0] == 't' && "txt"@[1] == 'x' && "ttf"@[0] == 't' && "ttf"@[1] == 't' && "pdf"@[0]
        == 'p' && "pdf"@[1] == 'd' && "png"@[1] == 'n');
    assert("js"@.len() == 2 && "jpg"@.len() == 3 && "json"@.len() == 4 && "jpeg"@.len() == 4
        && "woff2"@.len() == 5);
    assert("html"@[0] == 'h' && "json"@[0] == 'j' && "json"@[1] == 's' && "jpeg"@[0] == 'j'
        && "jpeg"@[1] == 'p' && "woff"@[0] == 'w' && "woff"@[1] == 'o' && "wasm"@[0] == 'w'
        && "wasm"@[1] == 'a');
}

} // verus!
