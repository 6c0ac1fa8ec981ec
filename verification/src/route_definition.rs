//! Route definitions.

use crate::numbers::{decimal, numbered};
use crate::request::HttpMethod;
use crate::outside::occurs_at;
use crate::text::{
    bytes_equal, contains, cut, first_at, first_index, lemma_first_at, lemma_first_is, push_text,
    text_of,
};
use std::marker::PhantomData;
use vstd::prelude::*;
use vstd::slice::slice_subrange;
use vstd::string::{is_ascii, StringSliceAdditionalSpecFns};
use vstd::utf8::*;

verus! {

/// Why a route was refused.
#[derive(Debug)]
pub enum RouteDefinitionError {
    InvalidPattern(String),
}

impl RouteDefinitionError {
    /// The error in words.
    pub open spec fn text(self) -> Seq<u8> {
        match self {
            RouteDefinitionError::InvalidPattern(s) => "invalid route pattern: ".spec_bytes()
                + encode_utf8(s@),
        }
    }

    /// The error in words.
    pub fn message(&self) -> (r: String)
        ensures
            encode_utf8(r@) == self.text(),
    {
        match self {
            RouteDefinitionError::InvalidPattern(s) => {
                let mut buf: Vec<u8> = Vec::new();
                push_text(&mut buf, "invalid route pattern: ");
                push_text(&mut buf, s.as_str());
                assert(buf@ =~= self.text());
                text_of(buf)
            },
        }
    }
}

/// An ASCII letter or an underscore.
pub open spec fn starts_name(b: u8) -> bool {
    65 <= b <= 90 || 97 <= b <= 122 || b == 95
}

/// An ASCII letter, an ASCII digit or an underscore.
pub open spec fn continues_name(b: u8) -> bool {
    starts_name(b) || 48 <= b <= 57
}

/// A parameter's name: a letter or an underscore, then letters, digits and
/// underscores.
pub open spec fn valid_name(s: Seq<u8>) -> bool {
    &&& s.len() > 0
    &&& starts_name(s[0])
    &&& forall|i: int| 0 <= i < s.len() ==> continues_name(#[trigger] s[i])
}

/// What is wrong with the braces of `route` from index `i` on, where `open` is
/// the index of the brace that is open there.
pub open spec fn brace_fault(route: Seq<u8>, i: int, open: Option<int>) -> Option<Seq<u8>>
    decreases route.len() - i,
{
    if i >= route.len() {
        match open {
            Some(_) => Some("unclosed '{' in route pattern".spec_bytes()),
            None => None,
        }
    } else if route[i] == 123 {
        match open {
            Some(_) => Some("unexpected '{' at byte index ".spec_bytes() + decimal(i as nat)),
            None => brace_fault(route, i + 1, Some(i)),
        }
    } else if route[i] == 125 {
        match open {
            None => Some("unexpected '}' at byte index ".spec_bytes() + decimal(i as nat)),
            Some(start) => {
                let name = route.subrange(start + 1, i);
                if name.len() == 0 {
                    Some("empty parameter name at byte index ".spec_bytes() + decimal(start as nat))
                } else if !valid_name(name) {
                    Some(
                        "invalid parameter name '".spec_bytes() + name
                            + "' (use [A-Za-z_][A-Za-z0-9_]*)".spec_bytes(),
                    )
                } else {
                    brace_fault(route, i + 1, None)
                }
            },
        }
    } else {
        brace_fault(route, i + 1, open)
    }
}

/// What is wrong with a route's pattern, where something is: it starts with a
/// slash, its braces enclose names, and the catch-all stands at its end.
pub open spec fn route_fault(route: Seq<u8>) -> Option<Seq<u8>> {
    if !(route.len() > 0 && route[0] == 47) {
        Some("route must start with '/'".spec_bytes())
    } else {
        match brace_fault(route, 0, None) {
            Some(fault) => Some(fault),
            None => match first_at(route, "{__path__}".spec_bytes()) {
                Some(i) => {
                    let tail = route.skip(i + 10);
                    if tail.len() == 0 || tail == "/".spec_bytes() {
                        None
                    } else {
                        Some(
                            "catch-all {__path__} must be at the end of the route".spec_bytes(),
                        )
                    }
                },
                None => None,
            },
        }
    }
}

/// A route: what it matches, and what answers it.
pub struct RouteDefinition<H> {
    pub pattern: String,
    pub method: HttpMethod,
    pub handler: H,
    pub middleware: Vec<H>,
}

impl<H> RouteDefinition<H> {
    pub fn new(method: HttpMethod, route: String, handler: H, middleware: Vec<H>) -> (r: Result<
        RouteDefinition<H>,
        RouteDefinitionError,
    >)
        ensures
            match r {
                Ok(d) => route_fault(encode_utf8(route@)) is None && d == (RouteDefinition {
                    pattern: route,
                    method,
                    handler,
                    middleware,
                }),
                Err(RouteDefinitionError::InvalidPattern(s)) => route_fault(encode_utf8(route@))
                    == Some(encode_utf8(s@)),
            },
    {
        match Self::validate_route(route.as_str()) {
            Ok(_) => Ok(RouteDefinition { pattern: route, method, handler, middleware }),
            Err(fault) => Err(RouteDefinitionError::InvalidPattern(fault)),
        }
    }

    /// Whether a route's pattern is well formed, and if not, what is wrong.
    pub fn validate_route(route: &str) -> (r: Result<(), String>)
        ensures
            match r {
                Ok(_) => route_fault(route.spec_bytes()) is None,
                Err(s) => route_fault(route.spec_bytes()) == Some(encode_utf8(s@)),
            },
    {
        let b = route.as_bytes();
        let n: usize = b.len();
        if !(n > 0 && b[0] == 47) {
            return Err("route must start with '/'".to_owned());
        }
        let mut open: Option<usize> = None;
        let mut i: usize = 0;
        while i < n
            invariant
                b@ == route.spec_bytes(),
                n == b@.len(),
                n > 0,
                b@[0] == 47,
                i <= n,
                open matches Some(s) ==> s < i && b@[s as int] == 123,
                brace_fault(b@, 0, None) == brace_fault(
                    b@,
                    i as int,
                    match open {
                        Some(s) => Some(s as int),
                        None => None,
                    },
                ),
            decreases n - i,
        {
            if b[i] == 123 {
                if open.is_some() {
                    return Err(numbered("unexpected '{' at byte index ", i));
                }
                open = Some(i);
            } else if b[i] == 125 {
                match open {
                    None => return Err(numbered("unexpected '}' at byte index ", i)),
                    Some(start) => {
                        let name = slice_subrange(b, start + 1, i);
                        if name.len() == 0 {
                            return Err(numbered("empty parameter name at byte index ", start));
                        }
                        if !Self::is_valid_param_name(name) {
                            return Err(Self::name_fault(route, start, i));
                        }
                    },
                }
                open = None;
            }
            i += 1;
        }
        if open.is_some() {
            return Err("unclosed '{' in route pattern".to_owned());
        }
        if let Some(at) = first_index(b, "{__path__}".as_bytes()) {
            proof {
                reveal_strlit("{__path__}");
                assert(is_ascii("{__path__}"));
            }
            let tail = slice_subrange(b, at + 10, n);
            assert(tail@ =~= b@.skip(at + 10));
            if tail.len() != 0 && !bytes_equal(tail, "/".as_bytes()) {
                return Err("catch-all {__path__} must be at the end of the route".to_owned());
            }
        }
        Ok(())
    }

    /// The complaint about the name between two braces.
    fn name_fault(route: &str, open: usize, close: usize) -> (r: String)
        requires
            open < close < route.spec_bytes().len(),
            route.spec_bytes()[open as int] == 123,
            route.spec_bytes()[close as int] == 125,
        ensures
            encode_utf8(r@) == "invalid parameter name '".spec_bytes()
                + route.spec_bytes().subrange(open + 1, close as int)
                + "' (use [A-Za-z_][A-Za-z0-9_]*)".spec_bytes(),
    {
        let left = cut(route, close).0;
        let name = cut(left, open).1;
        assert(name.spec_bytes() =~= route.spec_bytes().subrange(open + 1, close as int));
        let mut buf: Vec<u8> = Vec::new();
        push_text(&mut buf, "invalid parameter name '");
        push_text(&mut buf, name);
        push_text(&mut buf, "' (use [A-Za-z_][A-Za-z0-9_]*)");
        assert(buf@ =~= "invalid parameter name '".spec_bytes() + name.spec_bytes()
            + "' (use [A-Za-z_][A-Za-z0-9_]*)".spec_bytes());
        text_of(buf)
    }

    /// Whether `s` is a parameter's name.
    pub fn is_valid_param_name(s: &[u8]) -> (r: bool)
        ensures
            r == valid_name(s@),
    {
        let n: usize = s.len();
        if n == 0 {
            return false;
        }
        let c: u8 = s[0];
        if !(65 <= c && c <= 90 || 97 <= c && c <= 122 || c == 95) {
            return false;
        }
        for i in 0..n
            invariant
                n == s@.len(),
                forall|j: int| 0 <= j < i ==> continues_name(#[trigger] s@[j]),
        {
            let c: u8 = s[i];
            if !(65 <= c && c <= 90 || 97 <= c && c <= 122 || c == 95 || 48 <= c && c <= 57) {
                return false;
            }
        }
        true
    }
}

/// No handler has been given yet.
pub struct RouteHandlerMissing;

/// A handler has been given.
pub struct RouteHandlerPresent;

/// Collects what makes a route.
pub struct RouteDefinitionBuilder<State, H> {
    route: String,
    method: HttpMethod,
    middleware: Vec<H>,
    handler: Option<H>,
    _state: PhantomData<State>,
}

/// What a builder has collected.
pub struct RouteDraft<H> {
    pub route: Seq<u8>,
    pub method: HttpMethod,
    pub middleware: Seq<H>,
    pub handler: Option<H>,
}

impl<State, H> View for RouteDefinitionBuilder<State, H> {
    type V = RouteDraft<H>;

    closed spec fn view(&self) -> RouteDraft<H> {
        RouteDraft {
            route: encode_utf8(self.route@),
            method: self.method,
            middleware: self.middleware@,
            handler: self.handler,
        }
    }
}

impl<H> RouteDefinitionBuilder<RouteHandlerMissing, H> {
    /// A route for `GET`, so far without a handler.
    pub fn new(route: String) -> (r: Self)
        ensures
            r@ == (RouteDraft {
                route: encode_utf8(route@),
                method: HttpMethod::GET,
                middleware: Seq::<H>::empty(),
                handler: None,
            }),
    {
        RouteDefinitionBuilder {
            route,
            method: HttpMethod::GET,
            middleware: Vec::new(),
            handler: None,
            _state: PhantomData,
        }
    }

    pub fn handler(self, h: H) -> (r: RouteDefinitionBuilder<RouteHandlerPresent, H>)
        ensures
            r@ == (RouteDraft { handler: Some(h), ..self@ }),
    {
        RouteDefinitionBuilder {
            route: self.route,
            method: self.method,
            middleware: self.middleware,
            handler: Some(h),
            _state: PhantomData,
        }
    }
}

impl<State, H> RouteDefinitionBuilder<State, H> {
    pub fn method(self, method: HttpMethod) -> (r: Self)
        ensures
            r@ == (RouteDraft { method, ..self@ }),
    {
        let mut b = self;
        b.method = method;
        b
    }

    /// Adds a handler that runs before the route's own.
    pub fn middleware(self, m: H) -> (r: Self)
        ensures
            r@ == (RouteDraft { middleware: self@.middleware.push(m), ..self@ }),
    {
        let mut b = self;
        b.middleware.push(m);
        b
    }
}

impl<H> RouteDefinitionBuilder<RouteHandlerPresent, H> {
    pub fn build(self) -> (r: Result<RouteDefinition<H>, RouteDefinitionError>)
        requires
            self@.handler is Some,
        ensures
            match r {
                Ok(d) => route_fault(self@.route) is None && encode_utf8(d.pattern@) == self@.route
                    && d.method == self@.method && d.middleware@ == self@.middleware && Some(
                    d.handler,
                ) == self@.handler,
                Err(RouteDefinitionError::InvalidPattern(s)) => route_fault(self@.route) == Some(
                    encode_utf8(s@),
                ),
            },
    {
        RouteDefinition::new(self.method, self.route, self.handler.unwrap(), self.middleware)
    }
}

// ── Laws ───────────────────────────────────────────────────────────────────

/// Braces that are in order up to the end of a front are read on behind it.
proof fn lemma_behind_front(front: Seq<u8>, rest: Seq<u8>, i: int, open: Option<int>)
    requires
        0 <= i <= front.len(),
        open matches Some(start) ==> 0 <= start < i,
        brace_fault(front, i, open) is None,
    ensures
        brace_fault(front + rest, i, open) == brace_fault(
            front + rest,
            front.len() as int,
            None,
        ),
    decreases front.len() - i,
{
    let s = front + rest;
    if i < front.len() {
        assert(s[i] == front[i]);
        if front[i] == 123 {
            lemma_behind_front(front, rest, i + 1, Some(i));
        } else if front[i] == 125 {
            let start = open->Some_0;
            assert(s.subrange(start + 1, i) =~= front.subrange(start + 1, i));
            lemma_behind_front(front, rest, i + 1, None);
        } else {
            lemma_behind_front(front, rest, i + 1, open);
        }
    }
}

/// Whether braces are in order does not depend on where they stand.
proof fn lemma_shifted(front: Seq<u8>, rest: Seq<u8>, i: int, open: Option<int>)
    requires
        0 <= i <= rest.len(),
        open matches Some(start) ==> 0 <= start < i,
    ensures
        brace_fault(rest, i, open) is None <==> brace_fault(
            front + rest,
            front.len() + i,
            match open {
                Some(start) => Some(front.len() + start),
                None => None,
            },
        ) is None,
    decreases rest.len() - i,
{
    let s = front + rest;
    let n = front.len() as int;
    if i < rest.len() {
        assert(s[n + i] == rest[i]);
        if rest[i] == 123 {
            if open is None {
                lemma_shifted(front, rest, i + 1, Some(i));
            }
        } else if rest[i] == 125 {
            if let Some(start) = open {
                assert(s.subrange(n + start + 1, n + i) =~= rest.subrange(start + 1, i));
                lemma_shifted(front, rest, i + 1, None);
            }
        } else {
            lemma_shifted(front, rest, i + 1, open);
        }
    }
}

/// What stands between braces changes nothing.
proof fn lemma_no_brace_between(route: Seq<u8>, i: int, j: int, open: Option<int>)
    requires
        0 <= i <= j <= route.len(),
        forall|k: int| i <= k < j ==> #[trigger] route[k] != 123 && route[k] != 125,
    ensures
        brace_fault(route, i, open) == brace_fault(route, j, open),
    decreases j - i,
{
    if i < j {
        assert(route[i] != 123 && route[i] != 125);
        lemma_no_brace_between(route, i + 1, j, open);
    }
}

/// A text without braces.
pub open spec fn braceless(s: Seq<u8>) -> bool {
    forall|k: int| 0 <= k < s.len() ==> #[trigger] s[k] != 123 && s[k] != 125
}

/// Which braces are in order: a text without any, a name between two, and two texts
/// in which they are, one behind the other. A name starts with an ASCII letter or
/// an underscore and goes on with those and digits.
pub proof fn law_braces_in_order(a: Seq<u8>, b: Seq<u8>, plain: Seq<u8>, name: Seq<u8>)
    requires
        braceless(plain),
        name.len() > 0,
        !(48 <= name[0] <= 57),
        forall|i: int|
            0 <= i < name.len() ==> 65 <= #[trigger] name[i] <= 90 || 97 <= name[i] <= 122 || name[i]
                == 95 || 48 <= name[i] <= 57,
    ensures
        brace_fault(plain, 0, None) is None,
        brace_fault(seq![123u8] + name + seq![125u8], 0, None) is None,
        brace_fault(a, 0, None) is None && brace_fault(b, 0, None) is None ==> brace_fault(
            a + b,
            0,
            None,
        ) is None,
{
    lemma_no_brace_between(plain, 0, plain.len() as int, None);
    let braced = seq![123u8] + name + seq![125u8];
    let n = name.len() as int;
    assert forall|k: int| 1 <= k < n + 1 implies #[trigger] braced[k] != 123 && braced[k] != 125 by {
        assert(braced[k] == name[k - 1]);
    }
    lemma_no_brace_between(braced, 1, n + 1, Some(0));
    assert(braced.subrange(1, n + 1) =~= name);
    assert(65 <= name[0] <= 90 || 97 <= name[0] <= 122 || name[0] == 95);
    assert forall|i: int| 0 <= i < name.len() implies continues_name(#[trigger] name[i]) by {}
    assert(valid_name(name));
    assert(braced[n + 1] == 125);
    assert(brace_fault(braced, n + 2, None) is None);
    assert(brace_fault(braced, n + 1, Some(0)) is None);
    assert(brace_fault(braced, 0, None) == brace_fault(braced, 1, Some(0)));
    if brace_fault(a, 0, None) is None && brace_fault(b, 0, None) is None {
        lemma_behind_front(a, b, 0, None);
        lemma_shifted(a, b, 0, None);
    }
}

/// What is wrong where braces stop being in order, behind a front in which they are:
/// one that closes none, one that opens behind another, one that is never closed,
/// nothing between two, and something that is no name. Whatever follows, that fault
/// is the one that is reported, with the place where it stands.
pub proof fn law_brace_faults(front: Seq<u8>, plain: Seq<u8>, rest: Seq<u8>)
    requires
        brace_fault(front, 0, None) is None,
        braceless(plain),
    ensures
        brace_fault(front + (seq![125u8] + rest), 0, None) == Some(
            "unexpected '}' at byte index ".spec_bytes() + decimal(front.len()),
        ),
        brace_fault(front + (seq![123u8] + plain + seq![123u8] + rest), 0, None) == Some(
            "unexpected '{' at byte index ".spec_bytes() + decimal(
                front.len() + 1 + plain.len(),
            ),
        ),
        brace_fault(front + (seq![123u8] + plain), 0, None) == Some(
            "unclosed '{' in route pattern".spec_bytes(),
        ),
        plain.len() == 0 ==> brace_fault(
            front + (seq![123u8] + plain + seq![125u8] + rest),
            0,
            None,
        ) == Some("empty parameter name at byte index ".spec_bytes() + decimal(front.len())),
        plain.len() > 0 && !valid_name(plain) ==> brace_fault(
            front + (seq![123u8] + plain + seq![125u8] + rest),
            0,
            None,
        ) == Some(
            "invalid parameter name '".spec_bytes() + plain
                + "' (use [A-Za-z_][A-Za-z0-9_]*)".spec_bytes(),
        ),
{
    let n = front.len() as int;
    let m = plain.len() as int;
    let closing = front + (seq![125u8] + rest);
    lemma_behind_front(front, seq![125u8] + rest, 0, None);
    assert(closing[n] == 125);
    let twice = front + (seq![123u8] + plain + seq![123u8] + rest);
    lemma_behind_front(front, seq![123u8] + plain + seq![123u8] + rest, 0, None);
    assert forall|k: int| n + 1 <= k < n + 1 + m implies #[trigger] twice[k] != 123 && twice[k]
        != 125 by {
        assert(twice[k] == plain[k - n - 1]);
    }
    assert(twice[n] == 123 && twice[n + 1 + m] == 123);
    lemma_no_brace_between(twice, n + 1, n + 1 + m, Some(n));
    let never = front + (seq![123u8] + plain);
    lemma_behind_front(front, seq![123u8] + plain, 0, None);
    assert forall|k: int| n + 1 <= k < n + 1 + m implies #[trigger] never[k] != 123 && never[k]
        != 125 by {
        assert(never[k] == plain[k - n - 1]);
    }
    assert(never[n] == 123);
    lemma_no_brace_between(never, n + 1, n + 1 + m, Some(n));
    let named = front + (seq![123u8] + plain + seq![125u8] + rest);
    lemma_behind_front(front, seq![123u8] + plain + seq![125u8] + rest, 0, None);
    assert forall|k: int| n + 1 <= k < n + 1 + m implies #[trigger] named[k] != 123 && named[k]
        != 125 by {
        assert(named[k] == plain[k - n - 1]);
    }
    assert(named[n] == 123 && named[n + 1 + m] == 125);
    lemma_no_brace_between(named, n + 1, n + 1 + m, Some(n));
    assert(named.subrange(n + 1, n + 1 + m) =~= plain);
}

/// A name: an ASCII letter or an underscore, and then those and digits.
pub proof fn law_valid_name(s: Seq<u8>)
    ensures
        valid_name(s) <==> s.len() > 0 && !(48 <= s[0] <= 57) && (forall|i: int|
            0 <= i < s.len() ==> 65 <= #[trigger] s[i] <= 90 || 97 <= s[i] <= 122 || s[i] == 95 || 48
                <= s[i] <= 57),
{
    if valid_name(s) {
        assert forall|i: int| 0 <= i < s.len() implies 65 <= #[trigger] s[i] <= 90 || 97 <= s[i]
            <= 122 || s[i] == 95 || 48 <= s[i] <= 57 by {
            assert(continues_name(s[i]));
        }
    } else if s.len() > 0 && !(48 <= s[0] <= 57) && (forall|i: int|
        0 <= i < s.len() ==> 65 <= #[trigger] s[i] <= 90 || 97 <= s[i] <= 122 || s[i] == 95 || 48
            <= s[i] <= 57) {
        assert(65 <= s[0] <= 90 || 97 <= s[0] <= 122 || s[0] == 95);
        assert forall|i: int| 0 <= i < s.len() implies continues_name(#[trigger] s[i]) by {}
    }
}

/// What a route has to be: it starts with a slash, its braces are in order, and
/// behind the first catch-all stands nothing or a slash. What is wrong is reported
/// in that order.
pub proof fn law_route(route: Seq<u8>, front: Seq<u8>, tail: Seq<u8>)
    ensures
        route.len() == 0 || route[0] != 47 ==> route_fault(route) == Some(
            "route must start with '/'".spec_bytes(),
        ),
        route.len() > 0 && route[0] == 47 && brace_fault(route, 0, None) is Some ==> route_fault(
            route,
        ) == brace_fault(route, 0, None),
        route.len() > 0 && route[0] == 47 && brace_fault(route, 0, None) is None && !contains(
            route,
            "{__path__}".spec_bytes(),
        ) ==> route_fault(route) is None,
        route.len() > 0 && route[0] == 47 && brace_fault(route, 0, None) is None && route == front
            + "{__path__}".spec_bytes() + tail && (forall|j: int|
            0 <= j < front.len() ==> !occurs_at(route, "{__path__}".spec_bytes(), j)) ==> (
        if tail.len() == 0 || tail == seq![47u8] {
            route_fault(route) is None
        } else {
            route_fault(route) == Some(
                "catch-all {__path__} must be at the end of the route".spec_bytes(),
            )
        }),
{
    let lit = "{__path__}".spec_bytes();
    reveal_strlit("{__path__}");
    assert(is_ascii("{__path__}"));
    assert(lit.len() == 10);
    reveal_strlit("/");
    assert(is_ascii("/"));
    assert("/".spec_bytes() =~= seq![47u8]);
    lemma_first_at(route, lit);
    if route == front + lit + tail && (forall|j: int|
        0 <= j < front.len() ==> !occurs_at(route, lit, j)) {
        let n = front.len() as int;
        assert(route.subrange(n, n + 10) =~= lit);
        assert(occurs_at(route, lit, n));
        lemma_first_is(route, lit, n);
        assert(route.skip(n + 10) =~= tail);
    }
}

/// A route that is refused is refused with what is wrong with it.
pub proof fn law_refusal_words(e: RouteDefinitionError)
    ensures
        e matches RouteDefinitionError::InvalidPattern(s) && e.text()
            == "invalid route pattern: ".spec_bytes() + encode_utf8(s@),
{
}

} // verus!
