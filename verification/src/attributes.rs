//! What the `route` and `static_files` attributes accept and put out.

use crate::numbers::{decimal, numbered};
use crate::outside::occurs_at;
use crate::route_definition::{brace_fault, continues_name, route_fault, starts_name, valid_name};
use crate::router::{
    lemma_slashes_concat, lemma_split_path, segment_of, segments_of, split_path, without_slashes, SegmentModel,
};
use crate::text::{
    bytes_equal, cut, first_at, lemma_first_at, lemma_first_is, lemma_position, lemma_position_is, position, position_of, push_text,
    starts_with, text_of,
};
use vstd::prelude::*;
use vstd::slice::slice_subrange;
use vstd::string::{is_ascii, StringSliceAdditionalSpecFns};
use vstd::utf8::*;

verus! {

// ── The crate's path ───────────────────────────────────────────────────────

/// What a manifest says about a crate: it is the crate itself, it is known under
/// a name, or it is not there.
pub enum CrateFound {
    Itself,
    Name(String),
    Missing,
}

/// `s` with underscores for hyphens.
pub open spec fn with_underscores(s: Seq<u8>) -> Seq<u8> {
    s.map_values(|b: u8| if b == 45 { 95u8 } else { b })
}

/// The path under which generated code reaches a crate called `name`.
pub open spec fn crate_path(found: CrateFound, name: Seq<u8>) -> Seq<u8> {
    match found {
        CrateFound::Itself => "crate".spec_bytes(),
        CrateFound::Name(n) => "::".spec_bytes() + with_underscores(encode_utf8(n@)),
        CrateFound::Missing => "::".spec_bytes() + name,
    }
}

proof fn lemma_underscores_valid(s: Seq<u8>)
    requires
        valid_utf8(s),
    ensures
        valid_utf8(with_underscores(s)),
    decreases s.len(),
{
    if s.len() > 0 {
        let u = with_underscores(s);
        assert(length_of_first_scalar(u) == length_of_first_scalar(s));
        assert(valid_first_scalar(u));
        lemma_underscores_valid(pop_first_scalar(s));
        assert(pop_first_scalar(u) =~= with_underscores(pop_first_scalar(s)));
    }
}

/// The path under which generated code reaches a crate called `name`.
pub fn resolve_crate(found: CrateFound, name: &str) -> (r: String)
    ensures
        encode_utf8(r@) == crate_path(found, name.spec_bytes()),
{
    match found {
        CrateFound::Itself => "crate".to_owned(),
        CrateFound::Name(n) => {
            let mut text: Vec<u8> = Vec::new();
            push_text(&mut text, "::");
            let b = n.as_str().as_bytes();
            let ghost start = text@;
            for i in 0..b.len()
                invariant
                    b@ == encode_utf8(n@),
                    text@ == start + with_underscores(b@.take(i as int)),
            {
                text.push(if b[i] == 45 { 95 } else { b[i] });
                assert(text@ =~= start + with_underscores(b@.take(i + 1)));
            }
            assert(b@.take(b@.len() as int) =~= b@);
            proof {
                encode_utf8_valid_utf8(n@);
                lemma_underscores_valid(b@);
                valid_utf8_concat(start, with_underscores(b@));
                assert(start =~= "::".spec_bytes());
            }
            text_of(text)
        },
        CrateFound::Missing => {
            let mut text: Vec<u8> = Vec::new();
            push_text(&mut text, "::");
            push_text(&mut text, name);
            assert(text@ =~= "::".spec_bytes() + name.spec_bytes());
            text_of(text)
        },
    }
}

// ── The function that an attribute stands on ───────────────────────────────

/// The type of an argument: a reference, with the last segment of the path that it
/// refers to where that is a path, or something else.
pub enum ArgumentType {
    Reference { mutable: bool, last_segment: Option<String> },
    Other,
}

/// What a function returns: nothing that is written down, a tuple of so many
/// types, or something else.
#[derive(Debug, Clone, Copy, PartialEq, Eq, Structural)]
pub enum ReturnType {
    Nothing,
    Tuple(usize),
    Other,
}

/// What matters of the function that an attribute stands on.
pub struct HandlerSignature {
    pub is_async: bool,
    pub inputs: usize,
    /// The type of the first argument.
    pub argument: ArgumentType,
    pub output: ReturnType,
}

/// The argument is a mutable reference to what is called `HttpCall`, in whatever
/// module.
pub open spec fn takes_call(argument: ArgumentType) -> bool {
    match argument {
        ArgumentType::Reference { mutable, last_segment } => mutable && (last_segment matches Some(
            s,
        ) && encode_utf8(s@) == "HttpCall".spec_bytes()),
        ArgumentType::Other => false,
    }
}

/// Nothing is returned.
pub open spec fn returns_unit(output: ReturnType) -> bool {
    output == ReturnType::Nothing || output == ReturnType::Tuple(0)
}

impl HandlerSignature {
    /// Whether the first argument is `&mut HttpCall`.
    pub fn takes_call(&self) -> (r: bool)
        ensures
            r == takes_call(self.argument),
    {
        match &self.argument {
            ArgumentType::Reference { mutable, last_segment } => *mutable && match last_segment {
                Some(s) => bytes_equal(s.as_str().as_bytes(), "HttpCall".as_bytes()),
                None => false,
            },
            ArgumentType::Other => false,
        }
    }

    /// Whether nothing is returned.
    pub fn returns_unit(&self) -> (r: bool)
        ensures
            r == returns_unit(self.output),
    {
        match self.output {
            ReturnType::Nothing => true,
            ReturnType::Tuple(n) => n == 0,
            ReturnType::Other => false,
        }
    }
}

/// What an error is reported at.
#[derive(Debug, Clone, Copy, PartialEq, Eq, Structural)]
pub enum SignaturePart {
    Function,
    Inputs,
    Output,
}

/// What is wrong with the function that `route` stands on.
pub open spec fn handler_fault(sig: HandlerSignature) -> Option<(SignaturePart, Seq<u8>)> {
    if !sig.is_async {
        Some((SignaturePart::Function, "#[route] requires an `async fn`".spec_bytes()))
    } else if sig.inputs != 1 {
        Some(
            (
                SignaturePart::Inputs,
                "#[route] handler must take exactly one argument: `&mut HttpCall`".spec_bytes(),
            ),
        )
    } else if !takes_call(sig.argument) {
        Some(
            (
                SignaturePart::Inputs,
                "#[route] handler argument must be `&mut HttpCall`".spec_bytes(),
            ),
        )
    } else if !returns_unit(sig.output) {
        Some(
            (
                SignaturePart::Output,
                "#[route] handler must return `()` (future output = ())".spec_bytes(),
            ),
        )
    } else {
        None
    }
}

/// What is wrong with the function that `route` stands on.
pub fn check_handler(sig: &HandlerSignature) -> (r: Option<(SignaturePart, &'static str)>)
    ensures
        match r {
            Some(f) => handler_fault(*sig) == Some((f.0, f.1.spec_bytes())),
            None => handler_fault(*sig) is None,
        },
{
    if !sig.is_async {
        Some((SignaturePart::Function, "#[route] requires an `async fn`"))
    } else if sig.inputs != 1 {
        Some(
            (
                SignaturePart::Inputs,
                "#[route] handler must take exactly one argument: `&mut HttpCall`",
            ),
        )
    } else if !sig.takes_call() {
        Some((SignaturePart::Inputs, "#[route] handler argument must be `&mut HttpCall`"))
    } else if !sig.returns_unit() {
        Some((SignaturePart::Output, "#[route] handler must return `()` (future output = ())"))
    } else {
        None
    }
}

// ── Arguments ──────────────────────────────────────────────────────────────

/// The named arguments of the two attributes.
#[derive(Debug, Clone, Copy, PartialEq, Eq, Structural)]
pub enum AttributeKey {
    Method,
    Middleware,
    Dir,
    Index,
}

/// The argument of `route` called `name`.
pub open spec fn route_argument(name: Seq<u8>) -> Option<AttributeKey> {
    if name == "method".spec_bytes() {
        Some(AttributeKey::Method)
    } else if name == "middleware".spec_bytes() {
        Some(AttributeKey::Middleware)
    } else {
        None
    }
}

/// The argument of `route` called `name`, or what is wrong with it.
pub fn route_key(name: &str) -> (r: Result<AttributeKey, &'static str>)
    ensures
        match r {
            Ok(k) => route_argument(name.spec_bytes()) == Some(k),
            Err(s) => route_argument(name.spec_bytes()) is None && s.spec_bytes()
                == "unknown #[route] argument; expected `method = ...` or `middleware = [...]`".spec_bytes(),
        },
{
    if bytes_equal(name.as_bytes(), "method".as_bytes()) {
        Ok(AttributeKey::Method)
    } else if bytes_equal(name.as_bytes(), "middleware".as_bytes()) {
        Ok(AttributeKey::Middleware)
    } else {
        Err("unknown #[route] argument; expected `method = ...` or `middleware = [...]`")
    }
}

/// The argument of `static_files` called `name`.
pub open spec fn static_argument(name: Seq<u8>) -> Option<AttributeKey> {
    if name == "dir".spec_bytes() {
        Some(AttributeKey::Dir)
    } else if name == "index".spec_bytes() {
        Some(AttributeKey::Index)
    } else if name == "middleware".spec_bytes() {
        Some(AttributeKey::Middleware)
    } else {
        None
    }
}

/// The argument of `static_files` called `name`, or what is wrong with it.
pub fn static_key(name: &str) -> (r: Result<AttributeKey, &'static str>)
    ensures
        match r {
            Ok(k) => static_argument(name.spec_bytes()) == Some(k),
            Err(s) => static_argument(name.spec_bytes()) is None && s.spec_bytes()
                == "unknown argument; expected `dir`, `index`, or `middleware`".spec_bytes(),
        },
{
    if bytes_equal(name.as_bytes(), "dir".as_bytes()) {
        Ok(AttributeKey::Dir)
    } else if bytes_equal(name.as_bytes(), "index".as_bytes()) {
        Ok(AttributeKey::Index)
    } else if bytes_equal(name.as_bytes(), "middleware".as_bytes()) {
        Ok(AttributeKey::Middleware)
    } else {
        Err("unknown argument; expected `dir`, `index`, or `middleware`")
    }
}

// ── Route literals ─────────────────────────────────────────────────────────

/// A name that is kept for internal use: one in double underscores.
pub open spec fn reserved_name(name: Seq<u8>) -> bool {
    "__".spec_bytes().is_prefix_of(name) && name.len() >= 2 && name.skip(name.len() - 2)
        == "__".spec_bytes()
}

/// What is wrong with the name of a parameter whose brace opens at `start`.
pub open spec fn name_fault(name: Seq<u8>, start: nat) -> Option<Seq<u8>> {
    if name.len() == 0 {
        Some("empty parameter name at byte index ".spec_bytes() + decimal(start))
    } else if reserved_name(name) {
        Some(
            "parameter name '".spec_bytes() + name
                + "' is reserved (names wrapped in `__` are for internal use only)".spec_bytes(),
        )
    } else if !starts_name(name[0]) {
        Some(
            "invalid parameter name '".spec_bytes() + name
                + "': must start with [A-Za-z_]".spec_bytes(),
        )
    } else if !valid_name(name) {
        Some(
            "invalid parameter name '".spec_bytes() + name
                + "': use [A-Za-z_][A-Za-z0-9_]*".spec_bytes(),
        )
    } else {
        None
    }
}

/// What is wrong with the parameters of a route from index `i` on, at which none
/// is open.
pub open spec fn params_fault(route: Seq<u8>, i: int) -> Option<Seq<u8>>
    decreases route.len() - i,
{
    if i < 0 || i >= route.len() {
        None
    } else if route[i] == 123 {
        proof {
            lemma_position(route.skip(i + 1), 125);
        }
        let close = i + 1 + position(route.skip(i + 1), 125);
        if close >= route.len() {
            Some("unclosed '{' at byte index ".spec_bytes() + decimal(i as nat))
        } else {
            match name_fault(route.subrange(i + 1, close), i as nat) {
                Some(fault) => Some(fault),
                None => params_fault(route, close + 1),
            }
        }
    } else if route[i] == 125 {
        Some("unexpected '}' at byte index ".spec_bytes() + decimal(i as nat))
    } else {
        params_fault(route, i + 1)
    }
}

/// What is wrong with the route that `route` is given.
pub open spec fn literal_fault(route: Seq<u8>) -> Option<Seq<u8>> {
    if !(route.len() > 0 && route[0] == 47) {
        Some("route must start with '/' (e.g., '/user/{id}')".spec_bytes())
    } else {
        params_fault(route, 0)
    }
}

/// Three texts in one.
fn concat3(a: &str, b: &str, c: &str) -> (r: String)
    ensures
        encode_utf8(r@) == a.spec_bytes() + b.spec_bytes() + c.spec_bytes(),
{
    let mut buf: Vec<u8> = Vec::new();
    push_text(&mut buf, a);
    push_text(&mut buf, b);
    push_text(&mut buf, c);
    assert(buf@ =~= a.spec_bytes() + b.spec_bytes() + c.spec_bytes());
    text_of(buf)
}

/// Whether a name is kept for internal use.
fn is_reserved_name(name: &[u8]) -> (r: bool)
    ensures
        r == reserved_name(name@),
{
    let n: usize = name.len();
    if n < 2 || !starts_with(name, "__".as_bytes()) {
        return false;
    }
    let tail = slice_subrange(name, n - 2, n);
    assert(tail@ =~= name@.skip(n - 2));
    bytes_equal(tail, "__".as_bytes())
}

/// What is wrong with the name of a parameter whose brace opens at `start`.
fn check_name(name: &str, start: usize) -> (r: Result<(), String>)
    ensures
        match r {
            Ok(_) => name_fault(name.spec_bytes(), start as nat) is None,
            Err(s) => name_fault(name.spec_bytes(), start as nat) == Some(encode_utf8(s@)),
        },
{
    let b = name.as_bytes();
    let n: usize = b.len();
    if n == 0 {
        return Err(numbered("empty parameter name at byte index ", start));
    }
    if is_reserved_name(b) {
        return Err(
            concat3(
                "parameter name '",
                name,
                "' is reserved (names wrapped in `__` are for internal use only)",
            ),
        );
    }
    let c: u8 = b[0];
    if !(65 <= c && c <= 90 || 97 <= c && c <= 122 || c == 95) {
        return Err(concat3("invalid parameter name '", name, "': must start with [A-Za-z_]"));
    }
    for i in 1..n
        invariant
            b@ == name.spec_bytes(),
            n == b@.len(),
            n > 0,
            starts_name(b@[0]),
            !reserved_name(b@),
            forall|j: int| 0 <= j < i ==> continues_name(#[trigger] b@[j]),
    {
        let c: u8 = b[i];
        if !(65 <= c && c <= 90 || 97 <= c && c <= 122 || c == 95 || 48 <= c && c <= 57) {
            assert(!valid_name(b@));
            return Err(
                concat3("invalid parameter name '", name, "': use [A-Za-z_][A-Za-z0-9_]*"),
            );
        }
    }
    Ok(())
}

/// Checks the route that `route` is given.
pub fn validate_route_literal(route: &str) -> (r: Result<(), String>)
    ensures
        match r {
            Ok(_) => literal_fault(route.spec_bytes()) is None,
            Err(s) => literal_fault(route.spec_bytes()) == Some(encode_utf8(s@)),
        },
{
    let b = route.as_bytes();
    let n: usize = b.len();
    if !(n > 0 && b[0] == 47) {
        return Err("route must start with '/' (e.g., '/user/{id}')".to_owned());
    }
    let mut i: usize = 0;
    while i < n
        invariant
            b@ == route.spec_bytes(),
            n == b@.len(),
            n > 0,
            b@[0] == 47,
            i <= n,
            params_fault(b@, 0) == params_fault(b@, i as int),
        decreases n - i,
    {
        if b[i] == 123 {
            let rest = slice_subrange(b, i + 1, n);
            assert(rest@ =~= b@.skip(i + 1));
            let len: usize = position_of(rest, 125);
            proof {
                lemma_position(rest@, 125);
            }
            if len == rest.len() {
                return Err(numbered("unclosed '{' at byte index ", i));
            }
            let close: usize = i + 1 + len;
            assert(rest@[len as int] == b@[close as int]);
            let left = cut(route, close).0;
            let name = cut(left, i).1;
            assert(name.spec_bytes() =~= b@.subrange(i + 1, close as int));
            if let Err(fault) = check_name(name, i) {
                return Err(fault);
            }
            i = close + 1;
        } else if b[i] == 125 {
            return Err(numbered("unexpected '}' at byte index ", i));
        } else {
            i += 1;
        }
    }
    Ok(())
}

// ── Directories ────────────────────────────────────────────────────────────

/// What an error about `static_files` is reported at.
#[derive(Debug, Clone, Copy, PartialEq, Eq, Structural)]
pub enum StaticPart {
    Route,
    Dir,
}

/// A byte stands somewhere in `s`.
pub open spec fn has_byte(s: Seq<u8>, b: u8) -> bool {
    position(s, b) < s.len()
}

/// One of the parts of a path between slashes is `..`.
pub open spec fn has_parent(dir: Seq<u8>) -> bool
    decreases dir.len(),
{
    proof {
        lemma_position(dir, 47);
    }
    let end = position(dir, 47);
    dir.take(end) == "..".spec_bytes() || end < dir.len() && has_parent(dir.skip(end + 1))
}

/// What is wrong with the route and the directory that `static_files` is given:
/// the route may have no parameters, and the directory no `..`.
pub open spec fn static_fault(route: Seq<u8>, dir: Seq<u8>) -> Option<(StaticPart, Seq<u8>)> {
    if has_byte(route, 123) || has_byte(route, 125) {
        Some(
            (
                StaticPart::Route,
                "#[static_files] route must not contain path parameters — `{__path__}` is appended automatically".spec_bytes(),
            ),
        )
    } else if has_parent(dir) {
        Some(
            (
                StaticPart::Dir,
                "`dir` must not contain `..` — use an absolute path or a path relative to the project root".spec_bytes(),
            ),
        )
    } else {
        None
    }
}

/// The pattern under which a directory is served.
pub open spec fn static_pattern(route: Seq<u8>) -> Seq<u8> {
    if route.len() > 0 && route.last() == 47 {
        route + "{__path__}".spec_bytes()
    } else {
        route + "/".spec_bytes() + "{__path__}".spec_bytes()
    }
}

/// Whether one of the parts of a path between slashes is `..`.
fn contains_parent(dir: &str) -> (r: bool)
    ensures
        r == has_parent(dir.spec_bytes()),
{
    let mut rest: &[u8] = dir.as_bytes();
    loop
        invariant
            has_parent(rest@) == has_parent(dir.spec_bytes()),
        decreases rest@.len(),
    {
        let n: usize = rest.len();
        let end: usize = position_of(rest, 47);
        let part = slice_subrange(rest, 0, end);
        assert(part@ =~= rest@.take(end as int));
        if bytes_equal(part, "..".as_bytes()) {
            return true;
        }
        if end == n {
            return false;
        }
        let next = slice_subrange(rest, end + 1, n);
        assert(next@ =~= rest@.skip(end + 1));
        rest = next;
    }
}

/// The pattern under which `static_files` serves a directory, or what is wrong
/// with what it is given.
pub fn static_route(route: &str, dir: &str) -> (r: Result<String, (StaticPart, &'static str)>)
    ensures
        match r {
            Ok(p) => static_fault(route.spec_bytes(), dir.spec_bytes()) is None && encode_utf8(p@)
                == static_pattern(route.spec_bytes()),
            Err(f) => static_fault(route.spec_bytes(), dir.spec_bytes()) == Some(
                (f.0, f.1.spec_bytes()),
            ),
        },
{
    let b = route.as_bytes();
    let n: usize = b.len();
    if position_of(b, 123) < n || position_of(b, 125) < n {
        return Err(
            (
                StaticPart::Route,
                "#[static_files] route must not contain path parameters — `{__path__}` is appended automatically",
            ),
        );
    }
    if contains_parent(dir) {
        return Err(
            (
                StaticPart::Dir,
                "`dir` must not contain `..` — use an absolute path or a path relative to the project root",
            ),
        );
    }
    let mut text: Vec<u8> = Vec::new();
    push_text(&mut text, route);
    if !(n > 0 && b[n - 1] == 47) {
        push_text(&mut text, "/");
    }
    push_text(&mut text, "{__path__}");
    assert(text@ =~= static_pattern(b@));
    Ok(text_of(text))
}

/// What is wrong with the function that `static_files` stands on. The rules are
/// those of `route`.
pub open spec fn static_handler_fault(sig: HandlerSignature) -> Option<(SignaturePart, Seq<u8>)> {
    if !sig.is_async {
        Some((SignaturePart::Function, "#[static_files] requires an `async fn`".spec_bytes()))
    } else if sig.inputs != 1 {
        Some(
            (
                SignaturePart::Inputs,
                "#[static_files] handler must take exactly one argument: `&mut HttpCall`".spec_bytes(),
            ),
        )
    } else if !takes_call(sig.argument) {
        Some(
            (
                SignaturePart::Inputs,
                "#[static_files] handler argument must be `&mut HttpCall`".spec_bytes(),
            ),
        )
    } else if !returns_unit(sig.output) {
        Some(
            (
                SignaturePart::Output,
                "#[static_files] handler must return `()` (future output = ())".spec_bytes(),
            ),
        )
    } else {
        None
    }
}

/// What is wrong with the function that `static_files` stands on.
pub fn check_static_handler(sig: &HandlerSignature) -> (r: Option<(SignaturePart, &'static str)>)
    ensures
        r is None <==> sig.is_async && sig.inputs == 1 && takes_call(sig.argument) && returns_unit(
            sig.output,
        ),
        match r {
            Some(f) => static_handler_fault(*sig) == Some((f.0, f.1.spec_bytes())),
            None => static_handler_fault(*sig) is None,
        },
{
    if !sig.is_async {
        Some((SignaturePart::Function, "#[static_files] requires an `async fn`"))
    } else if sig.inputs != 1 {
        Some(
            (
                SignaturePart::Inputs,
                "#[static_files] handler must take exactly one argument: `&mut HttpCall`",
            ),
        )
    } else if !sig.takes_call() {
        Some((SignaturePart::Inputs, "#[static_files] handler argument must be `&mut HttpCall`"))
    } else if !sig.returns_unit() {
        Some(
            (
                SignaturePart::Output,
                "#[static_files] handler must return `()` (future output = ())",
            ),
        )
    } else {
        None
    }
}

// ── Laws ───────────────────────────────────────────────────────────────────

/// Between braces around a name, nothing is wrong.
proof fn lemma_inside(route: Seq<u8>, open: int, k: int, close: int)
    requires
        0 <= open < k <= close < route.len(),
        forall|j: int| k <= j < close ==> continues_name(#[trigger] route[j]),
    ensures
        brace_fault(route, k, Some(open)) == brace_fault(route, close, Some(open)),
    decreases close - k,
{
    if k < close {
        assert(continues_name(route[k]));
        lemma_inside(route, open, k + 1, close);
    }
}

/// A parameter with a name in order is one with a valid name.
proof fn lemma_param(route: Seq<u8>, i: int, close: int)
    requires
        0 <= i < close < route.len(),
        route[i] == 123,
        route[close] == 125,
        name_fault(route.subrange(i + 1, close), i as nat) is None,
    ensures
        brace_fault(route, i, None) == brace_fault(route, close + 1, None),
        forall|j: int| i < j < close ==> continues_name(#[trigger] route[j]),
{
    let name = route.subrange(i + 1, close);
    assert forall|j: int| i < j < close implies continues_name(#[trigger] route[j]) by {
        assert(continues_name(name[j - i - 1]));
    }
    lemma_inside(route, i, i + 1, close);
}

proof fn lemma_params_braces(route: Seq<u8>, i: int)
    requires
        0 <= i <= route.len(),
        params_fault(route, i) is None,
    ensures
        brace_fault(route, i, None) is None,
    decreases route.len() - i,
{
    if i < route.len() {
        if route[i] == 123 {
            let rest = route.skip(i + 1);
            lemma_position(rest, 125);
            let close = i + 1 + position(rest, 125);
            assert(route[close] == rest[close - i - 1]);
            lemma_param(route, i, close);
            lemma_params_braces(route, close + 1);
        } else {
            lemma_params_braces(route, i + 1);
        }
    }
}

/// The bytes of the catch-all.
proof fn lemma_catch_all_bytes()
    ensures
        "{__path__}".spec_bytes() == seq![123u8, 95, 95, 112, 97, 116, 104, 95, 95, 125],
{
    reveal_strlit("{__path__}");
    assert(is_ascii("{__path__}"));
    assert("{__path__}".spec_bytes() =~= seq![123u8, 95, 95, 112, 97, 116, 104, 95, 95, 125]);
}

/// The catch-all cannot be written as a parameter.
proof fn lemma_no_catch_all(route: Seq<u8>, i: int, at: int, catch_all: Seq<u8>)
    requires
        0 <= i <= at,
        params_fault(route, i) is None,
        catch_all == seq![123u8, 95, 95, 112, 97, 116, 104, 95, 95, 125],
    ensures
        !occurs_at(route, catch_all, at),
    decreases route.len() - i,
{
    if occurs_at(route, catch_all, at) {
        let found = route.subrange(at, at + 10);
        assert(forall|j: int| 0 <= j < 10 ==> #[trigger] route[at + j] == found[j]);
        assert(route[at + 0] == 123);
        if route[i] == 123 {
            let rest = route.skip(i + 1);
            lemma_position(rest, 125);
            let close = i + 1 + position(rest, 125);
            assert(route[close] == rest[close - i - 1]);
            lemma_param(route, i, close);
            if at == i {
                assert(route[at + 9] == 125);
                assert(rest[8] == 125);
                assert forall|j: int| 0 <= j < 8 implies rest[j] != 125 by {
                    assert(route[at + (j + 1)] == found[j + 1]);
                }
                assert(close == at + 9);
                reveal_strlit("__");
                assert(is_ascii("__"));
                let name = route.subrange(i + 1, close);
                assert(name =~= found.subrange(1, 9));
                assert(name.subrange(0, 2) =~= "__".spec_bytes());
                assert(name.skip(6) =~= "__".spec_bytes());
                assert(reserved_name(name));
            } else {
                if at < close {
                    assert(continues_name(route[at]));
                }
                lemma_no_catch_all(route, close + 1, at, catch_all);
            }
        } else {
            lemma_no_catch_all(route, i + 1, at, catch_all);
        }
    }
}

/// A route that the attribute accepts is one that can be defined, so the code
/// that it puts out does not fail.
pub proof fn law_literal_defines(route: Seq<u8>)
    requires
        literal_fault(route) is None,
    ensures
        route_fault(route) is None,
{
    lemma_params_braces(route, 0);
    let catch_all = "{__path__}".spec_bytes();
    lemma_catch_all_bytes();
    lemma_first_at(route, catch_all);
    if let Some(at) = first_at(route, catch_all) {
        lemma_no_catch_all(route, 0, at, catch_all);
    }
}

/// Without braces, nothing is wrong with braces.
proof fn lemma_no_braces(route: Seq<u8>, i: int, end: int)
    requires
        0 <= i <= end <= route.len(),
        forall|j: int| i <= j < end ==> #[trigger] route[j] != 123 && route[j] != 125,
    ensures
        brace_fault(route, i, None) == brace_fault(route, end, None),
    decreases end - i,
{
    if i < end {
        assert(route[i] != 123 && route[i] != 125);
        lemma_no_braces(route, i + 1, end);
    }
}

/// The segments of a path do not depend on the slashes that it starts with.
proof fn lemma_segments_bare(a: Seq<u8>, b: Seq<u8>)
    requires
        without_slashes(a) == without_slashes(b),
    ensures
        segments_of(a) == segments_of(b),
{
    assert(split_path(a) == split_path(b));
}

/// The segments of two paths, one behind the other with a slash between, are
/// those of both.
proof fn lemma_segments_concat(a: Seq<u8>, b: Seq<u8>)
    requires
        b.len() > 0,
        b[0] == 47,
    ensures
        segments_of(a + b) == segments_of(a) + segments_of(b),
    decreases a.len(),
{
    lemma_slashes_concat(a, b);
    let t = without_slashes(a);
    lemma_split_path(a);
    if t.len() == 0 {
        lemma_segments_bare(a + b, b);
        assert(segments_of(a) =~= Seq::<SegmentModel>::empty());
        assert(segments_of(a) + segments_of(b) =~= segments_of(b));
    } else {
        lemma_position(t, 47);
        lemma_position(t + b, 47);
        let end = position(t, 47);
        let all = position(t + b, 47);
        assert((t + b)[t.len() as int] == 47);
        if end < t.len() {
            assert((t + b)[end] == 47);
        }
        if all < end {
            assert((t + b)[all] == t[all]);
        }
        assert(all == end);
        assert((t + b).take(end) =~= t.take(end));
        assert((t + b).skip(end) =~= t.skip(end) + b);
        lemma_segments_concat(t.skip(end), b);
        let first = seq![segment_of(t.take(end))];
        assert(segments_of(a + b) == first + (segments_of(t.skip(end)) + segments_of(b)));
        assert(segments_of(a + b) =~= segments_of(a) + segments_of(b));
    }
}

/// The pattern under which `static_files` serves a directory can be defined,
/// where the route starts with a slash, and takes every path below the route: its
/// segments are those of the route, and then the catch-all.
pub proof fn law_static_pattern(route: Seq<u8>, dir: Seq<u8>)
    requires
        static_fault(route, dir) is None,
        route.len() > 0,
        route[0] == 47,
    ensures
        route_fault(static_pattern(route)) is None,
        segments_of(static_pattern(route)) == segments_of(route).push(SegmentModel::CatchAll),
{
    lemma_catch_all_bytes();
    reveal_strlit("/");
    assert(is_ascii("/"));
    let slash = "/".spec_bytes();
    assert(slash =~= seq![47u8]);
    let lit = "{__path__}".spec_bytes();
    let tail = slash + lit;
    let a = if route.last() == 47 {
        route.drop_last()
    } else {
        route
    };
    let p = static_pattern(route);
    assert(p =~= a + tail);
    let m = a.len() as int + 1;
    lemma_position(route, 123);
    lemma_position(route, 125);
    assert forall|j: int| 0 <= j < m implies #[trigger] p[j] != 123 && p[j] != 125 by {
        if j < a.len() {
            assert(p[j] == route[j]);
        }
    }
    lemma_no_braces(p, 0, m);
    assert(p[m] == 123);
    assert(p[m + 9] == 125);
    let name = p.subrange(m + 1, m + 9);
    assert(name =~= lit.subrange(1, 9));
    assert forall|j: int| m < j < m + 9 implies continues_name(#[trigger] p[j]) by {
        assert(p[j] == lit[j - m]);
    }
    assert forall|j: int| 0 <= j < name.len() implies continues_name(#[trigger] name[j]) by {
        assert(name[j] == p[m + 1 + j]);
    }
    lemma_inside(p, m, m + 1, m + 9);
    assert(starts_name(name[0]));
    assert(valid_name(name));
    assert(p.len() == m + 10);
    assert(brace_fault(p, m + 10, None) is None);
    assert(brace_fault(p, m + 9, Some(m)) is None);
    assert(brace_fault(p, m, None) is None);
    assert(p.subrange(m, m + 10) =~= lit);
    assert forall|j: int| 0 <= j < m implies !occurs_at(p, lit, j) by {
        if occurs_at(p, lit, j) {
            assert(p.subrange(j, j + 10)[0] == p[j]);
        }
    }
    lemma_first_is(p, lit, m);
    assert(p[0] == 47);

    lemma_segments_concat(a, tail);
    lemma_one_segment(tail, lit);
    if route.last() == 47 {
        assert(route =~= a + slash);
        lemma_segments_concat(a, slash);
        assert(slash.skip(1) =~= Seq::<u8>::empty());
        assert(without_slashes(slash) == without_slashes(slash.skip(1)));
        assert(segments_of(slash) =~= Seq::<SegmentModel>::empty());
        assert(segments_of(route) =~= segments_of(a));
    }
    assert(segments_of(p) =~= segments_of(route).push(SegmentModel::CatchAll));
}

/// The one segment of the catch-all behind a slash.
proof fn lemma_one_segment(tail: Seq<u8>, lit: Seq<u8>)
    requires
        lit == "{__path__}".spec_bytes(),
        lit == seq![123u8, 95, 95, 112, 97, 116, 104, 95, 95, 125],
        tail == seq![47u8] + lit,
    ensures
        segments_of(tail) == seq![SegmentModel::CatchAll],
{
    assert(tail.skip(1) =~= lit);
    assert(without_slashes(lit) == lit);
    assert(without_slashes(tail) == lit);
    lemma_position(lit, 47);
    assert(lit.take(10) =~= lit);
    assert(lit.skip(10) =~= Seq::<u8>::empty());
    assert(split_path(tail) == Some((lit, Seq::<u8>::empty())));
    assert(segments_of(Seq::<u8>::empty()) =~= Seq::<SegmentModel>::empty());
    assert(segments_of(tail) =~= seq![SegmentModel::CatchAll]);
}

/// A function can stand under `static_files` exactly where it can stand under
/// `route`, and what is wrong with it is reported at the same place.
pub proof fn law_same_signature_rules(sig: HandlerSignature)
    ensures
        static_handler_fault(sig) is None <==> handler_fault(sig) is None,
        handler_fault(sig) matches Some(f) ==> static_handler_fault(sig) matches Some(g) && g.0
            == f.0,
{
}

/// What a function that answers requests has to be: asynchronous, with one argument,
/// which is a mutable reference to what is called `HttpCall`, and without a result.
/// What is wrong is reported in that order.
pub proof fn law_handler(sig: HandlerSignature)
    ensures
        ({
            let takes = sig.argument matches ArgumentType::Reference { mutable, last_segment }
                && mutable && (last_segment matches Some(s) && encode_utf8(s@)
                == "HttpCall".spec_bytes());
            let unit = sig.output is Nothing || (sig.output matches ReturnType::Tuple(n) && n == 0);
            &&& handler_fault(sig) is None <==> sig.is_async && sig.inputs == 1 && takes && unit
            &&& !sig.is_async ==> handler_fault(sig) == Some(
                (SignaturePart::Function, "#[route] requires an `async fn`".spec_bytes()),
            )
            &&& sig.is_async && sig.inputs != 1 ==> handler_fault(sig) == Some(
                (
                    SignaturePart::Inputs,
                    "#[route] handler must take exactly one argument: `&mut HttpCall`".spec_bytes(),
                ),
            )
            &&& sig.is_async && sig.inputs == 1 && !takes ==> handler_fault(sig) == Some(
                (
                    SignaturePart::Inputs,
                    "#[route] handler argument must be `&mut HttpCall`".spec_bytes(),
                ),
            )
            &&& sig.is_async && sig.inputs == 1 && takes && !unit ==> handler_fault(sig) == Some(
                (
                    SignaturePart::Output,
                    "#[route] handler must return `()` (future output = ())".spec_bytes(),
                ),
            )
        }),
{
}

/// The arguments that the attributes know, by their names.
pub proof fn law_arguments(name: Seq<u8>)
    ensures
        route_argument(name) == Some(AttributeKey::Method) <==> name == "method".spec_bytes(),
        route_argument(name) == Some(AttributeKey::Middleware) <==> name
            == "middleware".spec_bytes(),
        route_argument(name) matches Some(k) ==> k is Method || k is Middleware,
        static_argument(name) == Some(AttributeKey::Dir) <==> name == "dir".spec_bytes(),
        static_argument(name) == Some(AttributeKey::Index) <==> name == "index".spec_bytes(),
        static_argument(name) == Some(AttributeKey::Middleware) <==> name
            == "middleware".spec_bytes(),
        static_argument(name) matches Some(k) ==> k is Dir || k is Index || k is Middleware,
{
    reveal_strlit("method");
    reveal_strlit("middleware");
    reveal_strlit("dir");
    reveal_strlit("index");
    assert(is_ascii("method") && is_ascii("middleware") && is_ascii("dir") && is_ascii("index"));
    assert("method".spec_bytes().len() == 6 && "middleware".spec_bytes().len() == 10
        && "dir".spec_bytes().len() == 3 && "index".spec_bytes().len() == 5);
}

/// The path to a crate: `crate` where it is the crate itself, and otherwise two
/// colons and the name that it is known under, with an underscore for each hyphen.
pub proof fn law_crate_path(found: CrateFound, name: Seq<u8>)
    ensures
        found is Itself ==> crate_path(found, name) == "crate".spec_bytes(),
        found is Missing ==> crate_path(found, name) == "::".spec_bytes() + name,
        found matches CrateFound::Name(n) ==> {
            let known = encode_utf8(n@);
            let path = crate_path(found, name);
            &&& path.len() == known.len() + 2
            &&& path.take(2) == "::".spec_bytes()
            &&& forall|i: int|
                0 <= i < known.len() ==> (#[trigger] known[i] == 45 ==> path[i + 2] == 95) && (
                known[i] != 45 ==> path[i + 2] == known[i])
        },
{
    reveal_strlit("::");
    assert(is_ascii("::"));
    assert("::".spec_bytes().len() == 2);
    if let CrateFound::Name(n) = found {
        let known = encode_utf8(n@);
        let path = crate_path(found, name);
        assert(path.take(2) =~= "::".spec_bytes());
        assert forall|i: int| 0 <= i < known.len() implies (#[trigger] known[i] == 45 ==> path[i + 2]
            == 95) && (known[i] != 45 ==> path[i + 2] == known[i]) by {
            assert(path[i + 2] == with_underscores(known)[i]);
        }
    }
}

/// A name is kept for internal use exactly where it starts and ends with two
/// underscores, which may be the same.
pub proof fn law_reserved_name(name: Seq<u8>, inner: Seq<u8>)
    ensures
        reserved_name("__".spec_bytes() + inner + "__".spec_bytes()),
        reserved_name(name) <==> name.len() >= 2 && name[0] == 95 && name[1] == 95 && name[name.len()
            - 2] == 95 && name.last() == 95,
{
    reveal_strlit("__");
    assert(is_ascii("__"));
    let two = "__".spec_bytes();
    assert(two =~= seq![95u8, 95u8]);
    let whole = two + inner + two;
    assert(whole.subrange(0, 2) =~= two);
    assert(whole.skip(whole.len() - 2) =~= two);
    if name.len() >= 2 {
        let front = name.subrange(0, 2);
        let back = name.skip(name.len() - 2);
        assert(front[0] == name[0] && front[1] == name[1]);
        assert(back[0] == name[name.len() - 2] && back[1] == name.last());
        if name[0] == 95 && name[1] == 95 && name[name.len() - 2] == 95 && name.last() == 95 {
            assert(front =~= two);
            assert(back =~= two);
        }
    }
}

/// What is wrong with the name of a parameter whose brace opens at `start`, in the
/// order in which it is looked at.
pub proof fn law_parameter_name(name: Seq<u8>, start: nat)
    ensures
        name.len() == 0 ==> name_fault(name, start) == Some(
            "empty parameter name at byte index ".spec_bytes() + decimal(start),
        ),
        name.len() > 0 && reserved_name(name) ==> name_fault(name, start) == Some(
            "parameter name '".spec_bytes() + name
                + "' is reserved (names wrapped in `__` are for internal use only)".spec_bytes(),
        ),
        name.len() > 0 && !reserved_name(name) && !(65 <= name[0] <= 90 || 97 <= name[0] <= 122
            || name[0] == 95) ==> name_fault(name, start) == Some(
            "invalid parameter name '".spec_bytes() + name
                + "': must start with [A-Za-z_]".spec_bytes(),
        ),
        name.len() > 0 && !reserved_name(name) && (65 <= name[0] <= 90 || 97 <= name[0] <= 122
            || name[0] == 95) && !valid_name(name) ==> name_fault(name, start) == Some(
            "invalid parameter name '".spec_bytes() + name
                + "': use [A-Za-z_][A-Za-z0-9_]*".spec_bytes(),
        ),
        name_fault(name, start) is None <==> valid_name(name) && !reserved_name(name),
{
}

/// What is wrong with the route that an attribute is given is looked for from the
/// front. A piece without braces and a parameter with a name in order change
/// nothing; a brace that closes none, one that is not closed and a parameter whose
/// name is not in order are reported, with the place where they stand.
pub proof fn law_literal_pieces(
    front: Seq<u8>,
    plain: Seq<u8>,
    name: Seq<u8>,
    rest: Seq<u8>,
)
    requires
        params_fault(front, 0) is None,
        forall|k: int| 0 <= k < plain.len() ==> #[trigger] plain[k] != 123 && plain[k] != 125,
        forall|k: int| 0 <= k < name.len() ==> #[trigger] name[k] != 125,
    ensures
        params_fault(front + plain, 0) is None,
        params_fault(front + (seq![125u8] + rest), 0) == Some(
            "unexpected '}' at byte index ".spec_bytes() + decimal(front.len()),
        ),
        params_fault(front + (seq![123u8] + name), 0) == Some(
            "unclosed '{' at byte index ".spec_bytes() + decimal(front.len()),
        ),
        name_fault(name, front.len()) is None ==> params_fault(
            front + (seq![123u8] + name + seq![125u8]),
            0,
        ) is None,
        name_fault(name, front.len()) is Some ==> params_fault(
            front + (seq![123u8] + name + seq![125u8] + rest),
            0,
        ) == name_fault(name, front.len()),
{
    let n = front.len() as int;
    let m = name.len() as int;
    lemma_params_behind(front, plain, 0);
    lemma_params_plain(front + plain, n, plain);
    lemma_params_behind(front, seq![125u8] + rest, 0);
    assert((front + (seq![125u8] + rest))[n] == 125);
    let never = front + (seq![123u8] + name);
    lemma_params_behind(front, seq![123u8] + name, 0);
    assert(never[n] == 123);
    assert(never.skip(n + 1) =~= name);
    lemma_position_is(name, 125, m);
    let whole = front + (seq![123u8] + name + seq![125u8]);
    lemma_params_behind(front, seq![123u8] + name + seq![125u8], 0);
    assert(whole[n] == 123);
    assert(whole.skip(n + 1) =~= name + seq![125u8]);
    lemma_position_is(name + seq![125u8], 125, m);
    assert(whole.subrange(n + 1, n + 1 + m) =~= name);
    assert(params_fault(whole, n + m + 2) is None);
    let longer = front + (seq![123u8] + name + seq![125u8] + rest);
    lemma_params_behind(front, seq![123u8] + name + seq![125u8] + rest, 0);
    assert(longer[n] == 123);
    assert(longer.skip(n + 1) =~= name + seq![125u8] + rest);
    lemma_position_is(name + seq![125u8] + rest, 125, m);
    assert(longer.subrange(n + 1, n + 1 + m) =~= name);
}

/// Parameters that are in order up to the end of a front are read on behind it.
proof fn lemma_params_behind(front: Seq<u8>, rest: Seq<u8>, i: int)
    requires
        0 <= i <= front.len(),
        params_fault(front, i) is None,
    ensures
        params_fault(front + rest, i) == params_fault(front + rest, front.len() as int),
    decreases front.len() - i,
{
    let s = front + rest;
    if i < front.len() {
        assert(s[i] == front[i]);
        if front[i] == 123 {
            let inner = front.skip(i + 1);
            lemma_position(inner, 125);
            let at = position(inner, 125);
            let close = i + 1 + at;
            assert(s.skip(i + 1) =~= inner + rest);
            assert forall|k: int| 0 <= k < at implies (inner + rest)[k] != 125 by {
                assert((inner + rest)[k] == inner[k]);
            }
            lemma_position_is(inner + rest, 125, at);
            assert(s.subrange(i + 1, close) =~= front.subrange(i + 1, close));
            lemma_params_behind(front, rest, close + 1);
        } else {
            lemma_params_behind(front, rest, i + 1);
        }
    }
}

proof fn lemma_params_plain(route: Seq<u8>, i: int, plain: Seq<u8>)
    requires
        0 <= i,
        route.len() == i + plain.len(),
        forall|k: int| 0 <= k < plain.len() ==> #[trigger] plain[k] != 123 && plain[k] != 125,
        forall|k: int| 0 <= k < plain.len() ==> #[trigger] plain[k] == route[i + k],
    ensures
        params_fault(route, i) is None,
    decreases plain.len(),
{
    if plain.len() > 0 {
        assert(plain[0] == route[i + 0]);
        let next = plain.skip(1);
        assert forall|k: int| 0 <= k < next.len() implies #[trigger] next[k] == route[i + 1 + k]
            && next[k] != 123 && next[k] != 125 by {
            assert(next[k] == plain[k + 1]);
            assert(plain[k + 1] == route[i + (k + 1)]);
        }
        lemma_params_plain(route, i + 1, next);
    }
}

/// A route that an attribute is given has to start with a slash, and its parameters
/// have to be in order.
pub proof fn law_literal(route: Seq<u8>)
    ensures
        route.len() == 0 || route[0] != 47 ==> literal_fault(route) == Some(
            "route must start with '/' (e.g., '/user/{id}')".spec_bytes(),
        ),
        route.len() > 0 && route[0] == 47 ==> literal_fault(route) == params_fault(route, 0),
{
}

/// Of the parts of a path between slashes one is `..` exactly where one is in front
/// of a slash or one is behind it.
pub proof fn law_parent(a: Seq<u8>, b: Seq<u8>, part: Seq<u8>)
    requires
        forall|i: int| 0 <= i < part.len() ==> #[trigger] part[i] != 47,
    ensures
        has_parent(a + seq![47u8] + b) <==> has_parent(a) || has_parent(b),
        has_parent(part) <==> part == "..".spec_bytes(),
    decreases a.len(),
{
    lemma_position_is(part, 47, part.len() as int);
    assert(part.take(part.len() as int) =~= part);
    let s = a + seq![47u8] + b;
    lemma_position(a, 47);
    let end = position(a, 47);
    assert forall|k: int| 0 <= k < end implies s[k] != 47 by {
        assert(s[k] == a[k]);
    }
    assert(s[end] == 47) by {
        if end < a.len() {
            assert(s[end] == a[end]);
        }
    }
    lemma_position_is(s, 47, end);
    assert(s.take(end) =~= a.take(end));
    if end < a.len() {
        let behind = a.skip(end + 1);
        assert(s.skip(end + 1) =~= behind + seq![47u8] + b);
        law_parent(behind, b, part);
    } else {
        assert(s.skip(end + 1) =~= b);
    }
}

/// What a directory can be served under: a route without braces, from a directory
/// without `..`; the route is looked at first. The pattern is the route, a slash
/// unless it ends with one, and the catch-all.
pub proof fn law_static_route(route: Seq<u8>, dir: Seq<u8>)
    ensures
        ({
            let braces = exists|i: int|
                0 <= i < route.len() && (#[trigger] route[i] == 123 || route[i] == 125);
            &&& static_fault(route, dir) is None <==> !braces && !has_parent(dir)
            &&& braces ==> (static_fault(route, dir) matches Some(f) && f.0 == StaticPart::Route)
            &&& !braces && has_parent(dir) ==> (static_fault(route, dir) matches Some(f) && f.0
                == StaticPart::Dir)
        }),
        route.len() > 0 && route.last() == 47 ==> static_pattern(route) == route
            + "{__path__}".spec_bytes(),
        route.len() == 0 || route.last() != 47 ==> static_pattern(route) == route + seq![47u8]
            + "{__path__}".spec_bytes(),
{
    reveal_strlit("/");
    assert(is_ascii("/"));
    assert("/".spec_bytes() =~= seq![47u8]);
    lemma_position(route, 123);
    lemma_position(route, 125);
}

/// What is wrong with a function under `static_files` is reported in its own words.
pub proof fn law_static_handler(sig: HandlerSignature)
    ensures
        handler_fault(sig) matches Some(f) ==> (f.0 is Function ==> static_handler_fault(sig)
            == Some((f.0, "#[static_files] requires an `async fn`".spec_bytes()))) && (
        f.0 is Output ==> static_handler_fault(sig) == Some(
            (f.0, "#[static_files] handler must return `()` (future output = ())".spec_bytes()),
        )) && (f.0 is Inputs && sig.inputs != 1 ==> static_handler_fault(sig) == Some(
            (
                f.0,
                "#[static_files] handler must take exactly one argument: `&mut HttpCall`".spec_bytes(),
            ),
        )) && (f.0 is Inputs && sig.inputs == 1 ==> static_handler_fault(sig) == Some(
            (
                f.0,
                "#[static_files] handler argument must be `&mut HttpCall`".spec_bytes(),
            ),
        )),
{
}

} // verus!
