//! Matching paths against route patterns.

use crate::request::{HttpMethod, Pair};
use crate::outside::occurs_at;
use crate::route_definition::{route_fault, RouteDefinition};
use crate::text::{
    bytes_equal, cut, lemma_boundary, lemma_first_at, lemma_position, lemma_position_is, position,
    position_of,
};
use vstd::prelude::*;
use vstd::string::{is_ascii, StringSliceAdditionalSpecFns};
use vstd::utf8::*;

verus! {

// ── Patterns ───────────────────────────────────────────────────────────────

/// One segment of a pattern: a literal, a named parameter, or the rest of a
/// path.
pub enum SegmentModel {
    Static(Seq<u8>),
    Param(Seq<u8>),
    CatchAll,
}

/// The segment that the text between two slashes stands for.
pub open spec fn segment_of(s: Seq<u8>) -> SegmentModel {
    if s == "{__path__}".spec_bytes() {
        SegmentModel::CatchAll
    } else if s.len() >= 2 && s[0] == 123 && s.last() == 125 {
        SegmentModel::Param(s.subrange(1, s.len() - 1))
    } else {
        SegmentModel::Static(s)
    }
}

/// `path` without the slashes that it starts with.
pub open spec fn without_slashes(path: Seq<u8>) -> Seq<u8>
    decreases path.len(),
{
    if path.len() > 0 && path[0] == 47 {
        without_slashes(path.skip(1))
    } else {
        path
    }
}

/// The first segment of a path that is not empty, and what follows it; none
/// where the path holds only slashes.
pub open spec fn split_path(path: Seq<u8>) -> Option<(Seq<u8>, Seq<u8>)> {
    let t = without_slashes(path);
    if t.len() == 0 {
        None
    } else {
        Some((t.take(position(t, 47)), t.skip(position(t, 47))))
    }
}

/// The segments of a pattern.
pub open spec fn segments_of(pattern: Seq<u8>) -> Seq<SegmentModel>
    decreases pattern.len(),
{
    proof {
        lemma_split_path(pattern);
    }
    match split_path(pattern) {
        None => Seq::empty(),
        Some(p) => seq![segment_of(p.0)] + segments_of(p.1),
    }
}

/// What `split_path` leaves is shorter than the path.
pub proof fn lemma_split_path(path: Seq<u8>)
    ensures
        without_slashes(path).len() <= path.len(),
        without_slashes(path).len() > 0 ==> without_slashes(path)[0] != 47,
        split_path(path) matches Some(p) ==> p.0.len() > 0 && p.1.len() < path.len() && p.0 + p.1
            == without_slashes(path),
    decreases path.len(),
{
    if path.len() > 0 && path[0] == 47 {
        lemma_split_path(path.skip(1));
    }
    let t = without_slashes(path);
    lemma_position(t, 47);
    if t.len() > 0 {
        assert(t.take(position(t, 47)) + t.skip(position(t, 47)) =~= t);
    }
}

// ── Registered routes ──────────────────────────────────────────────────────

/// A route and what is left of its pattern's segments.
pub struct Entry<H> {
    pub segments: Seq<SegmentModel>,
    pub route: RouteDefinition<H>,
}

/// The entry whose first segment is taken off.
pub open spec fn behind_first<H>(entry: Entry<H>) -> Entry<H> {
    Entry { segments: entry.segments.skip(1), route: entry.route }
}

/// The routes of the entries without segments, in order.
pub open spec fn terminal<H>(entries: Seq<Entry<H>>) -> Seq<RouteDefinition<H>>
    decreases entries.len(),
{
    if entries.len() == 0 {
        Seq::empty()
    } else if entries.last().segments.len() == 0 {
        terminal(entries.drop_last()).push(entries.last().route)
    } else {
        terminal(entries.drop_last())
    }
}

/// What is left of the entries that start with the literal `s`, in order.
pub open spec fn under_static<H>(entries: Seq<Entry<H>>, s: Seq<u8>) -> Seq<Entry<H>>
    decreases entries.len(),
{
    if entries.len() == 0 {
        Seq::empty()
    } else if entries.last().segments.len() > 0 && entries.last().segments[0]
        == SegmentModel::Static(s) {
        under_static(entries.drop_last(), s).push(behind_first(entries.last()))
    } else {
        under_static(entries.drop_last(), s)
    }
}

/// What is left of the entries that start with a parameter, in order.
pub open spec fn under_param<H>(entries: Seq<Entry<H>>) -> Seq<Entry<H>>
    decreases entries.len(),
{
    if entries.len() == 0 {
        Seq::empty()
    } else if entries.last().segments.len() > 0 && entries.last().segments[0] is Param {
        under_param(entries.drop_last()).push(behind_first(entries.last()))
    } else {
        under_param(entries.drop_last())
    }
}

/// The name in the first of the entries that start with a parameter.
pub open spec fn param_name<H>(entries: Seq<Entry<H>>) -> Option<Seq<u8>>
    decreases entries.len(),
{
    if entries.len() == 0 {
        None
    } else if param_name(entries.drop_last()) is Some {
        param_name(entries.drop_last())
    } else if entries.last().segments.len() > 0 {
        match entries.last().segments[0] {
            SegmentModel::Param(name) => Some(name),
            _ => None,
        }
    } else {
        None
    }
}

/// The route of the last of the entries that start with the catch-all.
pub open spec fn catch_all_route<H>(entries: Seq<Entry<H>>) -> Option<RouteDefinition<H>>
    decreases entries.len(),
{
    if entries.len() == 0 {
        None
    } else if entries.last().segments.len() > 0 && entries.last().segments[0]
        == SegmentModel::CatchAll {
        Some(entries.last().route)
    } else {
        catch_all_route(entries.drop_last())
    }
}

/// The first of the routes that is for `method`.
pub open spec fn first_for<H>(routes: Seq<RouteDefinition<H>>, method: HttpMethod) -> Option<
    RouteDefinition<H>,
>
    decreases routes.len(),
{
    if routes.len() == 0 {
        None
    } else if routes[0].method == method {
        Some(routes[0])
    } else {
        first_for(routes.skip(1), method)
    }
}

/// The route that takes the rest of a path, with what it captures.
pub open spec fn caught<H>(entries: Seq<Entry<H>>, method: HttpMethod, rest: Seq<u8>) -> Option<
    (RouteDefinition<H>, Seq<Pair>),
> {
    match catch_all_route(entries) {
        Some(route) => if route.method == method {
            Some((route, seq![("__path__".spec_bytes(), rest)]))
        } else {
            None
        },
        None => None,
    }
}

/// The route that answers `method` on `path`, with the names and values that its
/// pattern captures. At each segment a literal goes before a parameter and a
/// parameter before the catch-all; the next is tried where one leads to no
/// route. The parameter goes by the name under which it was first registered.
pub open spec fn lookup<H>(entries: Seq<Entry<H>>, method: HttpMethod, path: Seq<u8>) -> Option<
    (RouteDefinition<H>, Seq<Pair>),
>
    decreases path.len(),
{
    proof {
        lemma_split_path(path);
    }
    match split_path(path) {
        None => match first_for(terminal(entries), method) {
            Some(route) => Some((route, Seq::empty())),
            None => caught(entries, method, Seq::empty()),
        },
        Some(p) => {
            let by_literal = lookup(under_static(entries, p.0), method, p.1);
            let by_param = match param_name(entries) {
                Some(name) => match lookup(under_param(entries), method, p.1) {
                    Some(m) => Some((m.0, seq![(name, p.0)] + m.1)),
                    None => None,
                },
                None => None,
            };
            if by_literal is Some {
                by_literal
            } else if by_param is Some {
                by_param
            } else {
                caught(entries, method, without_slashes(path))
            }
        },
    }
}

/// Nothing answers where nothing is registered.
pub proof fn law_no_routes<H>(method: HttpMethod, path: Seq<u8>)
    ensures
        lookup(Seq::<Entry<H>>::empty(), method, path) is None,
    decreases path.len(),
{
    lemma_split_path(path);
    if let Some(p) = split_path(path) {
        law_no_routes::<H>(method, p.1);
    }
}

// ── The order of byte strings ──────────────────────────────────────────────

/// `a` comes before `b` in the lexicographic order.
pub open spec fn precedes(a: Seq<u8>, b: Seq<u8>) -> bool
    decreases a.len(),
{
    if b.len() == 0 {
        false
    } else if a.len() == 0 {
        true
    } else if a[0] == b[0] {
        precedes(a.skip(1), b.skip(1))
    } else {
        a[0] < b[0]
    }
}

proof fn lemma_precedes_transitive(a: Seq<u8>, b: Seq<u8>, c: Seq<u8>)
    requires
        precedes(a, b),
        precedes(b, c),
    ensures
        precedes(a, c),
    decreases a.len(),
{
    if a.len() > 0 && b.len() > 0 && c.len() > 0 && a[0] == b[0] && b[0] == c[0] {
        lemma_precedes_transitive(a.skip(1), b.skip(1), c.skip(1));
    }
}

proof fn lemma_precedes_irreflexive(a: Seq<u8>)
    ensures
        !precedes(a, a),
    decreases a.len(),
{
    if a.len() > 0 {
        lemma_precedes_irreflexive(a.skip(1));
    }
}

proof fn lemma_precedes_total(a: Seq<u8>, b: Seq<u8>)
    ensures
        a == b || precedes(a, b) || precedes(b, a),
    decreases a.len(),
{
    if a.len() > 0 && b.len() > 0 && a[0] == b[0] {
        lemma_precedes_total(a.skip(1), b.skip(1));
        if a.skip(1) == b.skip(1) {
            assert(a =~= seq![a[0]] + a.skip(1));
            assert(b =~= seq![b[0]] + b.skip(1));
        }
    } else if a.len() == 0 && b.len() == 0 {
        assert(a =~= b);
    }
}

/// Whether `a` comes before `b` in the lexicographic order.
fn is_before(a: &[u8], b: &[u8]) -> (r: bool)
    ensures
        r == precedes(a@, b@),
{
    let mut i: usize = 0;
    assert(a@.skip(0) =~= a@);
    assert(b@.skip(0) =~= b@);
    while i < a.len() && i < b.len()
        invariant
            i <= a@.len(),
            i <= b@.len(),
            precedes(a@, b@) == precedes(a@.skip(i as int), b@.skip(i as int)),
        decreases a@.len() - i,
    {
        if a[i] != b[i] {
            return a[i] < b[i];
        }
        assert(a@.skip(i as int).skip(1) =~= a@.skip(i + 1));
        assert(b@.skip(i as int).skip(1) =~= b@.skip(i + 1));
        i += 1;
    }
    i < b.len()
}

// ── The tree ───────────────────────────────────────────────────────────────

/// One segment of a pattern.
#[derive(Debug)]
pub enum Segment {
    Static(String),
    Param(String),
    CatchAll,
}

impl View for Segment {
    type V = SegmentModel;

    open spec fn view(&self) -> SegmentModel {
        match self {
            Segment::Static(s) => SegmentModel::Static(encode_utf8(s@)),
            Segment::Param(s) => SegmentModel::Param(encode_utf8(s@)),
            Segment::CatchAll => SegmentModel::CatchAll,
        }
    }
}

impl Segment {
    /// The segment that the text between two slashes stands for.
    pub fn from_str(s: &str) -> (r: Segment)
        ensures
            r@ == segment_of(s.spec_bytes()),
    {
        let b = s.as_bytes();
        let n: usize = b.len();
        if bytes_equal(b, "{__path__}".as_bytes()) {
            Segment::CatchAll
        } else if n >= 2 && b[0] == 123 && b[n - 1] == 125 {
            let left = cut(s, n - 1).0;
            assert(left.spec_bytes()[0] == 123);
            let inner = cut(left, 0).1;
            assert(inner.spec_bytes() =~= b@.subrange(1, n - 1));
            Segment::Param(inner.to_owned())
        } else {
            Segment::Static(s.to_owned())
        }
    }
}

/// One node of the prefix tree: the routes whose patterns share their first
/// segments.
struct Node<H> {
    /// The routes whose patterns end here.
    handlers: Vec<RouteDefinition<H>>,
    /// What follows a literal, ordered by the literal.
    static_children: Vec<(String, Node<H>)>,
    /// What follows a parameter, and the parameter's name.
    param_child: Option<(String, Box<Node<H>>)>,
    /// The route that takes the rest of a path.
    catch_all: Option<RouteDefinition<H>>,
    /// What has been registered here.
    entries: Ghost<Seq<Entry<H>>>,
}

impl<H> Node<H> {
    spec fn key(&self, i: int) -> Seq<u8> {
        encode_utf8(self.static_children@[i].0@)
    }

    spec fn has_key(&self, s: Seq<u8>) -> bool {
        exists|i: int| 0 <= i < self.static_children@.len() && #[trigger] self.key(i) == s
    }

    /// The literals stand in order.
    spec fn sorted(&self) -> bool {
        forall|i: int, j: int|
            0 <= i < j < self.static_children@.len() ==> precedes(
                #[trigger] self.key(i),
                #[trigger] self.key(j),
            )
    }

    /// The tree holds what has been registered.
    spec fn wf(&self) -> bool
        decreases self,
    {
        &&& self.handlers@ == terminal(self.entries@)
        &&& self.catch_all == catch_all_route(self.entries@)
        &&& self.sorted()
        &&& forall|i: int|
            0 <= i < self.static_children@.len() ==> {
                &&& (#[trigger] self.static_children@[i]).1.wf()
                &&& self.static_children@[i].1.entries@ == under_static(self.entries@, self.key(i))
            }
        &&& forall|s: Seq<u8>|
            (#[trigger] under_static(self.entries@, s)).len() > 0 ==> self.has_key(s)
        &&& match self.param_child {
            Some(p) => {
                &&& param_name(self.entries@) == Some(encode_utf8(p.0@))
                &&& p.1.wf()
                &&& p.1.entries@ == under_param(self.entries@)
            },
            None => param_name(self.entries@) is None && under_param(self.entries@).len() == 0,
        }
    }

    fn new() -> (r: Node<H>)
        ensures
            r.wf(),
            r.entries@ == Seq::<Entry<H>>::empty(),
    {
        Node {
            handlers: Vec::new(),
            static_children: Vec::new(),
            param_child: None,
            catch_all: None,
            entries: Ghost(Seq::empty()),
        }
    }

    /// Where the literal `key` stands or would have to stand.
    fn search(&self, key: &[u8]) -> (r: (usize, bool))
        requires
            self.sorted(),
        ensures
            r.0 <= self.static_children@.len(),
            r.1 ==> r.0 < self.static_children@.len() && self.key(r.0 as int) == key@,
            !r.1 ==> forall|i: int|
                0 <= i < self.static_children@.len() ==> #[trigger] self.key(i) != key@,
            forall|i: int| 0 <= i < r.0 ==> precedes(#[trigger] self.key(i), key@),
            !r.1 ==> forall|i: int|
                r.0 <= i < self.static_children@.len() ==> precedes(key@, #[trigger] self.key(i)),
    {
        let mut low: usize = 0;
        let mut high: usize = self.static_children.len();
        while low < high
            invariant
                self.sorted(),
                low <= high <= self.static_children@.len(),
                forall|i: int| 0 <= i < low ==> precedes(#[trigger] self.key(i), key@),
                forall|i: int|
                    high <= i < self.static_children@.len() ==> precedes(
                        key@,
                        #[trigger] self.key(i),
                    ),
            decreases high - low,
        {
            let mid: usize = low + (high - low) / 2;
            let k = self.static_children[mid].0.as_str().as_bytes();
            assert(k@ == self.key(mid as int));
            if is_before(k, key) {
                assert forall|i: int| 0 <= i <= mid implies precedes(
                    #[trigger] self.key(i),
                    key@,
                ) by {
                    if i < mid {
                        lemma_precedes_transitive(self.key(i), self.key(mid as int), key@);
                    }
                }
                low = mid + 1;
            } else if bytes_equal(k, key) {
                return (mid, true);
            } else {
                proof {
                    lemma_precedes_total(k@, key@);
                }
                assert forall|i: int|
                    mid <= i < self.static_children@.len() implies precedes(
                    key@,
                    #[trigger] self.key(i),
                ) by {
                    if mid < i {
                        lemma_precedes_transitive(key@, self.key(mid as int), self.key(i));
                    }
                }
                high = mid;
            }
        }
        proof {
            lemma_precedes_irreflexive(key@);
        }
        (low, false)
    }

    /// Registers a route under what is left of its pattern's segments.
    fn insert(&mut self, segments: &Vec<Segment>, at: usize, route: RouteDefinition<H>)
        requires
            old(self).wf(),
            at <= segments@.len(),
        ensures
            final(self).wf(),
            final(self).entries@ == old(self).entries@.push(
                Entry { segments: segment_models(segments@).skip(at as int), route },
            ),
        decreases segments@.len() - at,
    {
        let ghost before = *self;
        let ghost known = self.entries@;
        let ghost entry = Entry { segments: segment_models(segments@).skip(at as int), route };
        let ghost all = known.push(entry);
        assert(all.drop_last() =~= known);
        if at == segments.len() {
            self.handlers.push(route);
            self.entries = Ghost(all);
            proof {
                self.lemma_keys_kept(before);
            }
            return;
        }
        assert(entry.segments[0] == segments@[at as int]@);
        assert(behind_first(entry).segments =~= segment_models(segments@).skip(at + 1));
        match &segments[at] {
            Segment::Static(s) => {
                let (idx, found): (usize, bool) = self.search(s.as_str().as_bytes());
                let ghost key = encode_utf8(s@);
                if found {
                    self.static_children[idx].1.insert(segments, at + 1, route);
                    self.entries = Ghost(all);
                    proof {
                        self.lemma_child_grown(before, entry, key, idx as int);
                    }
                } else {
                    let mut child = Node::new();
                    child.insert(segments, at + 1, route);
                    self.static_children.insert(idx, (s.clone(), child));
                    self.entries = Ghost(all);
                    proof {
                        self.lemma_child_added(before, entry, key, idx as int);
                    }
                }
            },
            Segment::Param(name) => {
                if let Some((_, child)) = &mut self.param_child {
                    child.insert(segments, at + 1, route);
                } else {
                    let mut child = Box::new(Node::new());
                    child.insert(segments, at + 1, route);
                    assert(child.entries@ =~= under_param(known).push(behind_first(entry)));
                    self.param_child = Some((name.clone(), child));
                }
                self.entries = Ghost(all);
                proof {
                    self.lemma_keys_kept(before);
                }
            },
            Segment::CatchAll => {
                self.catch_all = Some(route);
                self.entries = Ghost(all);
                proof {
                    self.lemma_keys_kept(before);
                }
            },
        }
    }

    /// The route that answers `method` on `path`, and what it captures behind what
    /// `params` already holds.
    fn find<'a, 'p>(
        &'a self,
        path: &'p str,
        method: &HttpMethod,
        params: &mut Vec<(&'a str, &'p str)>,
    ) -> (r: Option<&'a RouteDefinition<H>>)
        requires
            self.wf(),
        ensures
            match lookup(self.entries@, *method, path.spec_bytes()) {
                Some(m) => r == Some(&m.0) && str_pairs(final(params)@) == str_pairs(old(params)@)
                    + m.1,
                None => r is None && final(params)@ == old(params)@,
            },
        decreases path.spec_bytes().len(),
    {
        let ghost before = params@;
        let ghost goal = lookup(self.entries@, *method, path.spec_bytes());
        proof {
            lemma_split_path(path.spec_bytes());
            reveal_strlit("");
            assert(is_ascii(""));
            assert("".spec_bytes() =~= Seq::<u8>::empty());
        }
        let (seg, rest): (&str, &str) = match next_segment(path) {
            Some(p) => p,
            None => {
                let n: usize = self.handlers.len();
                let mut i: usize = 0;
                assert(self.handlers@.skip(0) =~= self.handlers@);
                while i < n
                    invariant
                        n == self.handlers@.len(),
                        i <= n,
                        self.handlers@ == terminal(self.entries@),
                        first_for(self.handlers@, *method) == first_for(
                            self.handlers@.skip(i as int),
                            *method,
                        ),
                        params@ == before,
                        before == old(params)@,
                        split_path(path.spec_bytes()) is None,
                    decreases n - i,
                {
                    if self.handlers[i].method == *method {
                        assert(str_pairs(params@) =~= str_pairs(before) + Seq::<Pair>::empty());
                        return Some(&self.handlers[i]);
                    }
                    assert(self.handlers@.skip(i as int).skip(1) =~= self.handlers@.skip(i + 1));
                    i += 1;
                }
                if let Some(route) = &self.catch_all {
                    if route.method == *method {
                        params.push(("__path__", ""));
                        assert(str_pairs(params@) =~= str_pairs(before) + seq![
                            ("__path__".spec_bytes(), Seq::<u8>::empty()),
                        ]);
                        return Some(route);
                    }
                }
                return None;
            },
        };

        let (idx, found): (usize, bool) = self.search(seg.as_bytes());
        if found {
            if let Some(route) = self.static_children[idx].1.find(rest, method, params) {
                return Some(route);
            }
        } else {
            proof {
                let none = under_static(self.entries@, seg.spec_bytes());
                if none.len() > 0 {
                    assert(self.has_key(seg.spec_bytes()));
                }
                assert(none =~= Seq::empty());
                law_no_routes::<H>(*method, rest.spec_bytes());
            }
        }
        if let Some((name, child)) = &self.param_child {
            let saved_len: usize = params.len();
            params.push((name.as_str(), seg));
            let ghost with_param = params@;
            if let Some(route) = child.find(rest, method, params) {
                proof {
                    let m = lookup(under_param(self.entries@), *method, rest.spec_bytes())->Some_0;
                    assert(str_pairs(with_param) =~= str_pairs(before) + seq![
                        (encode_utf8(name@), seg.spec_bytes()),
                    ]);
                    assert(str_pairs(params@) =~= str_pairs(before) + (seq![
                        (encode_utf8(name@), seg.spec_bytes()),
                    ] + m.1));
                }
                return Some(route);
            }
            params.truncate(saved_len);
            assert(params@ =~= before);
        }
        if let Some(route) = &self.catch_all {
            if route.method == *method {
                let tail = skip_slashes(path);
                params.push(("__path__", tail));
                assert(str_pairs(params@) =~= str_pairs(before) + seq![
                    ("__path__".spec_bytes(), tail.spec_bytes()),
                ]);
                return Some(route);
            }
        }
        None
    }

    /// An entry that starts with no literal leaves the children of literals
    /// right.
    proof fn lemma_keys_kept(&self, before: Node<H>)
        requires
            before.wf(),
            self.static_children == before.static_children,
            self.entries@.len() > 0,
            self.entries@.drop_last() == before.entries@,
            self.entries@.last().segments.len() > 0 ==> self.entries@.last().segments[0] !is Static,
        ensures
            self.sorted(),
            forall|i: int|
                0 <= i < self.static_children@.len() ==> {
                    &&& (#[trigger] self.static_children@[i]).1.wf()
                    &&& self.static_children@[i].1.entries@ == under_static(
                        self.entries@,
                        self.key(i),
                    )
                },
            forall|s: Seq<u8>|
                (#[trigger] under_static(self.entries@, s)).len() > 0 ==> self.has_key(s),
    {
        assert(forall|i: int| #[trigger] self.key(i) == before.key(i));
        assert forall|s: Seq<u8>|
            (#[trigger] under_static(self.entries@, s)).len() > 0 implies self.has_key(s) by {
            assert(under_static(before.entries@, s).len() > 0);
            assert(before.has_key(s));
            let i = choose|i: int|
                0 <= i < before.static_children@.len() && #[trigger] before.key(i) == s;
            assert(self.key(i) == s);
        }
    }

    /// The child at `idx` has taken an entry that starts with its literal.
    proof fn lemma_child_grown(&self, before: Node<H>, entry: Entry<H>, key: Seq<u8>, idx: int)
        requires
            before.wf(),
            0 <= idx < before.static_children@.len(),
            before.key(idx) == key,
            entry.segments.len() > 0,
            entry.segments[0] == SegmentModel::Static(key),
            self.entries@ == before.entries@.push(entry),
            self.static_children@.len() == before.static_children@.len(),
            forall|i: int|
                0 <= i < self.static_children@.len() && i != idx ==> #[trigger] self.static_children@[i]
                    == before.static_children@[i],
            self.static_children@[idx].0 == before.static_children@[idx].0,
            self.static_children@[idx].1.wf(),
            self.static_children@[idx].1.entries@
                == before.static_children@[idx].1.entries@.push(behind_first(entry)),
        ensures
            self.sorted(),
            forall|i: int|
                0 <= i < self.static_children@.len() ==> {
                    &&& (#[trigger] self.static_children@[i]).1.wf()
                    &&& self.static_children@[i].1.entries@ == under_static(
                        self.entries@,
                        self.key(i),
                    )
                },
            forall|s: Seq<u8>|
                (#[trigger] under_static(self.entries@, s)).len() > 0 ==> self.has_key(s),
    {
        assert(self.entries@.drop_last() =~= before.entries@);
        assert forall|i: int| 0 <= i < self.static_children@.len() implies #[trigger] self.key(i)
            == before.key(i) by {
            assert(self.static_children@[i].0 == before.static_children@[i].0);
        }
        assert forall|i: int| 0 <= i < self.static_children@.len() implies {
            &&& (#[trigger] self.static_children@[i]).1.wf()
            &&& self.static_children@[i].1.entries@ == under_static(self.entries@, self.key(i))
        } by {
            assert(before.static_children@[i].1.wf());
            if i != idx {
                if i < idx {
                    assert(precedes(before.key(i), before.key(idx)));
                } else {
                    assert(precedes(before.key(idx), before.key(i)));
                }
                lemma_precedes_irreflexive(key);
            }
        }
        assert forall|s: Seq<u8>|
            (#[trigger] under_static(self.entries@, s)).len() > 0 implies self.has_key(s) by {
            if s == key {
                assert(self.key(idx) == s);
            } else {
                assert(under_static(before.entries@, s).len() > 0);
                assert(before.has_key(s));
                let i = choose|i: int|
                    0 <= i < before.static_children@.len() && #[trigger] before.key(i) == s;
                assert(self.key(i) == s);
            }
        }
    }

    /// A child for a new literal stands at `idx`.
    proof fn lemma_child_added(&self, before: Node<H>, entry: Entry<H>, key: Seq<u8>, idx: int)
        requires
            before.wf(),
            0 <= idx <= before.static_children@.len(),
            forall|i: int| 0 <= i < idx ==> precedes(#[trigger] before.key(i), key),
            forall|i: int|
                idx <= i < before.static_children@.len() ==> precedes(
                    key,
                    #[trigger] before.key(i),
                ),
            entry.segments.len() > 0,
            entry.segments[0] == SegmentModel::Static(key),
            self.entries@ == before.entries@.push(entry),
            self.static_children@.len() == before.static_children@.len() + 1,
            self.static_children@ == before.static_children@.insert(
                idx,
                self.static_children@[idx],
            ),
            self.key(idx) == key,
            self.static_children@[idx].1.wf(),
            self.static_children@[idx].1.entries@ == Seq::<Entry<H>>::empty().push(
                behind_first(entry),
            ),
        ensures
            self.sorted(),
            forall|i: int|
                0 <= i < self.static_children@.len() ==> {
                    &&& (#[trigger] self.static_children@[i]).1.wf()
                    &&& self.static_children@[i].1.entries@ == under_static(
                        self.entries@,
                        self.key(i),
                    )
                },
            forall|s: Seq<u8>|
                (#[trigger] under_static(self.entries@, s)).len() > 0 ==> self.has_key(s),
    {
        assert(self.entries@.drop_last() =~= before.entries@);
        lemma_precedes_irreflexive(key);
        assert forall|i: int| 0 <= i < idx implies #[trigger] self.key(i) == before.key(i) by {
            assert(self.static_children@[i] == before.static_children@[i]);
        }
        assert forall|i: int|
            idx < i < self.static_children@.len() implies #[trigger] self.key(i) == before.key(
            i - 1,
        ) by {
            assert(self.static_children@[i] == before.static_children@[i - 1]);
        }
        if under_static(before.entries@, key).len() > 0 {
            assert(before.has_key(key));
            let i = choose|i: int|
                0 <= i < before.static_children@.len() && #[trigger] before.key(i) == key;
            assert(false);
        }
        assert(under_static(self.entries@, key) =~= Seq::<Entry<H>>::empty().push(
            behind_first(entry),
        ));
        assert forall|i: int| 0 <= i < self.static_children@.len() implies {
            &&& (#[trigger] self.static_children@[i]).1.wf()
            &&& self.static_children@[i].1.entries@ == under_static(self.entries@, self.key(i))
        } by {
            if i < idx {
                assert(before.static_children@[i].1.wf());
                assert(self.static_children@[i] == before.static_children@[i]);
                assert(precedes(before.key(i), key));
            } else if i > idx {
                assert(before.static_children@[i - 1].1.wf());
                assert(self.static_children@[i] == before.static_children@[i - 1]);
                assert(precedes(key, before.key(i - 1)));
            }
        }
        assert forall|i: int, j: int|
            0 <= i < j < self.static_children@.len() implies precedes(
            #[trigger] self.key(i),
            #[trigger] self.key(j),
        ) by {
            if j < idx {
                assert(precedes(before.key(i), before.key(j)));
            } else if i > idx {
                assert(precedes(before.key(i - 1), before.key(j - 1)));
            } else if i < idx && j > idx {
                assert(precedes(before.key(i), before.key(j - 1)));
            } else if i == idx {
                assert(precedes(key, before.key(j - 1)));
            } else {
                assert(precedes(before.key(i), key));
            }
        }
        assert forall|s: Seq<u8>|
            (#[trigger] under_static(self.entries@, s)).len() > 0 implies self.has_key(s) by {
            if s == key {
                assert(self.key(idx) == s);
            } else {
                assert(under_static(before.entries@, s).len() > 0);
                assert(before.has_key(s));
                let i = choose|i: int|
                    0 <= i < before.static_children@.len() && #[trigger] before.key(i) == s;
                if i < idx {
                    assert(self.key(i) == s);
                } else {
                    assert(self.key(i + 1) == s);
                }
            }
        }
    }
}

/// Pairs of texts, in UTF-8.
pub open spec fn str_pairs(v: Seq<(&str, &str)>) -> Seq<Pair> {
    v.map_values(|p: (&str, &str)| (p.0.spec_bytes(), p.1.spec_bytes()))
}

/// `path` without the slashes that it starts with.
pub fn skip_slashes(path: &str) -> (r: &str)
    ensures
        r.spec_bytes() == without_slashes(path.spec_bytes()),
{
    let b = path.as_bytes();
    let n: usize = b.len();
    let mut i: usize = 0;
    assert(b@.skip(0) =~= b@);
    while i < n && b[i] == 47
        invariant
            n == b@.len(),
            i <= n,
            i > 0 ==> b@[i - 1] == 47,
            without_slashes(b@) == without_slashes(b@.skip(i as int)),
        decreases n - i,
    {
        assert(b@.skip(i as int).skip(1) =~= b@.skip(i + 1));
        i += 1;
    }
    if i == 0 {
        path
    } else {
        let r = cut(path, i - 1).1;
        assert(r.spec_bytes() =~= b@.skip(i as int));
        r
    }
}

/// The first segment of a path that is not empty, and what follows it.
fn next_segment(path: &str) -> (r: Option<(&str, &str)>)
    ensures
        match r {
            Some(p) => split_path(path.spec_bytes()) == Some((p.0.spec_bytes(), p.1.spec_bytes())),
            None => split_path(path.spec_bytes()) is None,
        },
{
    let t = skip_slashes(path);
    let b = t.as_bytes();
    if b.len() == 0 {
        return None;
    }
    let end: usize = position_of(b, 47);
    proof {
        encode_utf8_valid_utf8(t@);
        lemma_position(b@, 47);
        if end < b@.len() {
            lemma_boundary(b@, end as int);
        } else {
            is_char_boundary_start_end_of_seq(b@);
        }
        assert(b@.subrange(0, end as int) =~= b@.take(end as int));
        assert(b@.subrange(end as int, b@.len() as int) =~= b@.skip(end as int));
    }
    Some(t.split_at(end))
}

/// The models of segments.
pub open spec fn segment_models(segments: Seq<Segment>) -> Seq<SegmentModel> {
    segments.map_values(|s: Segment| s@)
}

// ── The router ─────────────────────────────────────────────────────────────

/// A matched route with what its pattern captured.
pub struct Match<'a, 'p, H> {
    pub route: &'a RouteDefinition<H>,
    pub params: Vec<(&'a str, &'p str)>,
}

/// The entry that a route makes.
pub open spec fn entry_of<H>(route: RouteDefinition<H>) -> Entry<H> {
    Entry { segments: segments_of(encode_utf8(route.pattern@)), route }
}

/// The entries that routes make.
pub open spec fn entries_of<H>(routes: Seq<RouteDefinition<H>>) -> Seq<Entry<H>> {
    routes.map_values(|r: RouteDefinition<H>| entry_of(r))
}

/// The part of a path before its first question mark.
pub open spec fn path_of(path: Seq<u8>) -> Seq<u8> {
    path.take(position(path, 63))
}

/// The routes that a server answers.
pub struct Router<H> {
    root: Node<H>,
}

impl<H> View for Router<H> {
    type V = Seq<Entry<H>>;

    closed spec fn view(&self) -> Seq<Entry<H>> {
        self.root.entries@
    }
}

impl<H> Router<H> {
    /// The tree holds what has been registered.
    pub closed spec fn wf(&self) -> bool {
        self.root.wf()
    }

    pub fn build(routes: Vec<RouteDefinition<H>>) -> (r: Router<H>)
        ensures
            r.wf(),
            r@ == entries_of(routes@),
    {
        let ghost all = routes@;
        let mut r: Router<H> = Router { root: Node::new() };
        assert(entries_of(all.take(0)) =~= Seq::<Entry<H>>::empty());
        for route in it: routes
            invariant
                it.seq() == all,
                r.wf(),
                r@ == entries_of(all.take(it.index() as int)),
        {
            assert(route == all[it.index() as int]);
            r.insert(route);
            assert(entries_of(all.take(it.index() + 1)) =~= entries_of(
                all.take(it.index() as int),
            ).push(entry_of(route)));
        }
        assert(all.take(all.len() as int) =~= all);
        r
    }

    /// Registers a route. In every node of the tree the literals stay in order; the
    /// tree holds the route, and it holds every route that it held, but for one
    /// whose catch-all stands in the place of the new one's.
    pub fn insert(&mut self, route: RouteDefinition<H>)
        requires
            old(self).wf(),
        ensures
            final(self).wf(),
            final(self).ordered(),
            final(self)@ == old(self)@.push(entry_of(route)),
            final(self).holds(entry_of(route).segments, route),
            forall|segments: Seq<SegmentModel>, held: RouteDefinition<H>|
                old(self).holds(segments, held) && !replaces(entry_of(route).segments, segments)
                    ==> #[trigger] final(self).holds(segments, held),
    {
        let ghost before = *self;
        let ghost added = entry_of(route);
        let segments: Vec<Segment> = Self::parse_segments(route.pattern.as_str());
        assert(segment_models(segments@).skip(0) =~= segment_models(segments@));
        self.root.insert(&segments, 0, route);
        proof {
            self.law_ordered();
            lemma_present_pushed(before@, added, added.segments, route);
            self.law_holds(added.segments, route);
            assert forall|segments: Seq<SegmentModel>, held: RouteDefinition<H>|
                before.holds(segments, held) && !replaces(
                    added.segments,
                    segments,
                ) implies #[trigger] self.holds(segments, held) by {
                before.law_holds(segments, held);
                self.law_holds(segments, held);
                lemma_present_pushed(before@, added, segments, held);
            }
        }
    }

    /// The route that answers `method` on the part of `path` before a query.
    pub fn find<'a, 'p>(&'a self, method: &HttpMethod, path: &'p str) -> (r: Option<
        Match<'a, 'p, H>,
    >)
        requires
            self.wf(),
        ensures
            match lookup(self@, *method, path_of(path.spec_bytes())) {
                Some(m) => r matches Some(found) && *found.route == m.0 && str_pairs(found.params@)
                    == m.1,
                None => r is None,
            },
    {
        let b = path.as_bytes();
        let mark: usize = position_of(b, 63);
        proof {
            lemma_position(b@, 63);
        }
        let bare: &str = if mark < b.len() {
            cut(path, mark).0
        } else {
            path
        };
        assert(bare.spec_bytes() =~= path_of(b@));
        let mut params: Vec<(&'a str, &'p str)> = Vec::new();
        assert(str_pairs(params@) =~= Seq::<Pair>::empty());
        match self.root.find(bare, method, &mut params) {
            Some(route) => {
                assert(str_pairs(params@) =~= lookup(self@, *method, bare.spec_bytes())->Some_0.1);
                Some(Match { route, params })
            },
            None => None,
        }
    }

    /// The segments of a pattern.
    fn parse_segments(pattern: &str) -> (r: Vec<Segment>)
        ensures
            segment_models(r@) == segments_of(pattern.spec_bytes()),
    {
        let mut r: Vec<Segment> = Vec::new();
        let mut rest: &str = pattern;
        assert(segment_models(r@) + segments_of(rest.spec_bytes()) =~= segments_of(
            pattern.spec_bytes(),
        ));
        loop
            invariant
                segment_models(r@) + segments_of(rest.spec_bytes()) == segments_of(
                    pattern.spec_bytes(),
                ),
            decreases rest.spec_bytes().len(),
        {
            proof {
                lemma_split_path(rest.spec_bytes());
            }
            match next_segment(rest) {
                Some((seg, behind)) => {
                    let ghost so_far = segment_models(r@);
                    r.push(Segment::from_str(seg));
                    assert(segment_models(r@) =~= so_far + seq![segment_of(seg.spec_bytes())]);
                    assert(so_far + segments_of(rest.spec_bytes()) =~= segment_models(r@)
                        + segments_of(behind.spec_bytes()));
                    rest = behind;
                },
                None => {
                    assert(segment_models(r@) =~= segments_of(pattern.spec_bytes()));
                    return r;
                },
            }
        }
    }
}

// ── Laws ───────────────────────────────────────────────────────────────────

/// The segments of a pattern fit a path: each literal is the path's segment in
/// its place, a parameter is any segment, and the catch-all any rest.
pub open spec fn fits(segments: Seq<SegmentModel>, path: Seq<u8>) -> bool
    decreases path.len(),
{
    proof {
        lemma_split_path(path);
    }
    if segments.len() > 0 && segments[0] is CatchAll {
        true
    } else {
        match split_path(path) {
            None => segments.len() == 0,
            Some(p) => {
                &&& segments.len() > 0
                &&& segments[0] matches SegmentModel::Static(s) ==> s == p.0
                &&& fits(segments.skip(1), p.1)
            },
        }
    }
}

/// What the parameters and the catch-all of a pattern stand for in a path that
/// the pattern fits.
pub open spec fn captures(segments: Seq<SegmentModel>, path: Seq<u8>) -> Seq<Seq<u8>>
    decreases path.len(),
{
    proof {
        lemma_split_path(path);
    }
    if segments.len() > 0 && segments[0] is CatchAll {
        seq![without_slashes(path)]
    } else {
        match split_path(path) {
            None => Seq::empty(),
            Some(p) => if segments.len() > 0 && segments[0] is Param {
                seq![p.0] + captures(segments.skip(1), p.1)
            } else {
                captures(segments.skip(1), p.1)
            },
        }
    }
}

/// The values of pairs.
pub open spec fn values(pairs: Seq<Pair>) -> Seq<Seq<u8>> {
    pairs.map_values(|p: Pair| p.1)
}

/// A route registered with `later` takes the place of one with `earlier`: both
/// end in the catch-all, and before it they have the same literals and
/// parameters in the same places.
pub open spec fn replaces(later: Seq<SegmentModel>, earlier: Seq<SegmentModel>) -> bool
    decreases earlier.len(),
{
    if later.len() == 0 || earlier.len() == 0 {
        false
    } else if earlier[0] is CatchAll {
        later[0] is CatchAll
    } else {
        &&& later[0] == earlier[0] || later[0] is Param && earlier[0] is Param
        &&& replaces(later.skip(1), earlier.skip(1))
    }
}

proof fn lemma_from_static<H>(entries: Seq<Entry<H>>, s: Seq<u8>, k: int) -> (i: int)
    requires
        0 <= k < under_static(entries, s).len(),
    ensures
        0 <= i < entries.len(),
        entries[i].segments.len() > 0,
        entries[i].segments[0] == SegmentModel::Static(s),
        under_static(entries, s)[k] == behind_first(entries[i]),
        forall|j: int|
            i < j < entries.len() && (#[trigger] entries[j]).segments.len() > 0
                && entries[j].segments[0] == SegmentModel::Static(s) ==> exists|l: int|
                k < l < under_static(entries, s).len() && #[trigger] under_static(entries, s)[l]
                    == behind_first(entries[j]),
    decreases entries.len(),
{
    let front = entries.drop_last();
    let rest = under_static(front, s);
    let all = under_static(entries, s);
    if k < rest.len() {
        let i = lemma_from_static(front, s, k);
        assert forall|j: int|
            i < j < entries.len() && (#[trigger] entries[j]).segments.len() > 0
                && entries[j].segments[0] == SegmentModel::Static(s) implies exists|l: int|
            k < l < all.len() && #[trigger] all[l] == behind_first(entries[j]) by {
            if j < front.len() {
                assert(front[j] == entries[j]);
                let l = choose|l: int|
                    k < l < rest.len() && #[trigger] rest[l] == behind_first(front[j]);
                assert(all[l] == rest[l]);
            } else {
                assert(all[all.len() - 1] == behind_first(entries[j]));
            }
        }
        i
    } else {
        entries.len() - 1
    }
}

proof fn lemma_from_param<H>(entries: Seq<Entry<H>>, k: int) -> (i: int)
    requires
        0 <= k < under_param(entries).len(),
    ensures
        0 <= i < entries.len(),
        entries[i].segments.len() > 0,
        entries[i].segments[0] is Param,
        under_param(entries)[k] == behind_first(entries[i]),
        forall|j: int|
            i < j < entries.len() && (#[trigger] entries[j]).segments.len() > 0
                && entries[j].segments[0] is Param ==> exists|l: int|
                k < l < under_param(entries).len() && #[trigger] under_param(entries)[l]
                    == behind_first(entries[j]),
    decreases entries.len(),
{
    let front = entries.drop_last();
    let rest = under_param(front);
    let all = under_param(entries);
    if k < rest.len() {
        let i = lemma_from_param(front, k);
        assert forall|j: int|
            i < j < entries.len() && (#[trigger] entries[j]).segments.len() > 0
                && entries[j].segments[0] is Param implies exists|l: int|
            k < l < all.len() && #[trigger] all[l] == behind_first(entries[j]) by {
            if j < front.len() {
                assert(front[j] == entries[j]);
                let l = choose|l: int|
                    k < l < rest.len() && #[trigger] rest[l] == behind_first(front[j]);
                assert(all[l] == rest[l]);
            } else {
                assert(all[all.len() - 1] == behind_first(entries[j]));
            }
        }
        i
    } else {
        entries.len() - 1
    }
}

proof fn lemma_from_terminal<H>(entries: Seq<Entry<H>>, k: int) -> (i: int)
    requires
        0 <= k < terminal(entries).len(),
    ensures
        0 <= i < entries.len(),
        entries[i].segments.len() == 0,
        terminal(entries)[k] == entries[i].route,
    decreases entries.len(),
{
    let rest = terminal(entries.drop_last());
    if k < rest.len() {
        lemma_from_terminal(entries.drop_last(), k)
    } else {
        entries.len() - 1
    }
}

proof fn lemma_from_catch_all<H>(entries: Seq<Entry<H>>) -> (i: int)
    requires
        catch_all_route(entries) is Some,
    ensures
        0 <= i < entries.len(),
        entries[i].segments.len() > 0,
        entries[i].segments[0] is CatchAll,
        catch_all_route(entries) == Some(entries[i].route),
        forall|j: int|
            i < j < entries.len() ==> !((#[trigger] entries[j]).segments.len() > 0
                && entries[j].segments[0] is CatchAll),
    decreases entries.len(),
{
    if entries.last().segments.len() > 0 && entries.last().segments[0] == SegmentModel::CatchAll {
        entries.len() - 1
    } else {
        let front = entries.drop_last();
        let i = lemma_from_catch_all(front);
        assert forall|j: int| i < j < entries.len() implies !((
        #[trigger] entries[j]).segments.len() > 0 && entries[j].segments[0] is CatchAll) by {
            if j < front.len() {
                assert(front[j] == entries[j]);
            }
        }
        i
    }
}

proof fn lemma_first_for<H>(routes: Seq<RouteDefinition<H>>, method: HttpMethod) -> (k: int)
    requires
        first_for(routes, method) is Some,
    ensures
        0 <= k < routes.len(),
        routes[k].method == method,
        first_for(routes, method) == Some(routes[k]),
    decreases routes.len(),
{
    if routes[0].method == method {
        0
    } else {
        1 + lemma_first_for(routes.skip(1), method)
    }
}

/// The index of an entry that `lookup` may have gone by.
proof fn lemma_found<H>(entries: Seq<Entry<H>>, method: HttpMethod, path: Seq<u8>) -> (i: int)
    requires
        lookup(entries, method, path) is Some,
    ensures
        0 <= i < entries.len(),
        entries[i].route == lookup(entries, method, path)->Some_0.0,
        entries[i].route.method == method,
        fits(entries[i].segments, path),
        values(lookup(entries, method, path)->Some_0.1) == captures(entries[i].segments, path),
        forall|j: int|
            i < j < entries.len() ==> !replaces(
                (#[trigger] entries[j]).segments,
                entries[i].segments,
            ),
    decreases path.len(),
{
    lemma_split_path(path);
    let found = lookup(entries, method, path)->Some_0;
    match split_path(path) {
        None => {
            if first_for(terminal(entries), method) is Some {
                let k = lemma_first_for(terminal(entries), method);
                let i = lemma_from_terminal(entries, k);
                assert(values(found.1) =~= captures(entries[i].segments, path));
                i
            } else {
                let i = lemma_from_catch_all(entries);
                assert(without_slashes(path) =~= Seq::empty());
                assert(values(found.1) =~= captures(entries[i].segments, path));
                i
            }
        },
        Some(p) => {
            let by_literal = lookup(under_static(entries, p.0), method, p.1);
            let by_param = lookup(under_param(entries), method, p.1);
            if by_literal is Some {
                let under = under_static(entries, p.0);
                let k = lemma_found(under, method, p.1);
                let i = lemma_from_static(entries, p.0, k);
                assert forall|j: int| i < j < entries.len() implies !replaces(
                    (#[trigger] entries[j]).segments,
                    entries[i].segments,
                ) by {
                    if replaces(entries[j].segments, entries[i].segments) {
                        let l = choose|l: int|
                            k < l < under.len() && #[trigger] under[l] == behind_first(entries[j]);
                        assert(!replaces(under[l].segments, under[k].segments));
                    }
                }
                i
            } else if param_name(entries) is Some && by_param is Some {
                let k = lemma_found(under_param(entries), method, p.1);
                let i = lemma_from_param(entries, k);
                assert(values(found.1) =~= seq![p.0] + values(by_param->Some_0.1));
                let under = under_param(entries);
                assert forall|j: int| i < j < entries.len() implies !replaces(
                    (#[trigger] entries[j]).segments,
                    entries[i].segments,
                ) by {
                    if replaces(entries[j].segments, entries[i].segments) {
                        let l = choose|l: int|
                            k < l < under.len() && #[trigger] under[l] == behind_first(entries[j]);
                        assert(!replaces(under[l].segments, under[k].segments));
                    }
                }
                i
            } else {
                let i = lemma_from_catch_all(entries);
                assert(values(found.1) =~= captures(entries[i].segments, path));
                i
            }
        },
    }
}

/// What answers a request is one of the registered routes: it is for the
/// request's method, its pattern fits the path, and the captured values are what
/// its parameters stand for in the path.
pub proof fn law_answer_fits<H>(entries: Seq<Entry<H>>, method: HttpMethod, path: Seq<u8>)
    ensures
        lookup(entries, method, path) matches Some(m) ==> exists|i: int|
            0 <= i < entries.len() && (#[trigger] entries[i]).route == m.0 && m.0.method == method
                && fits(entries[i].segments, path) && values(m.1) == captures(
                entries[i].segments,
                path,
            ),
{
    if lookup(entries, method, path) is Some {
        let i = lemma_found(entries, method, path);
        assert(entries[i].route == lookup(entries, method, path)->Some_0.0);
    }
}

proof fn lemma_into_static<H>(entries: Seq<Entry<H>>, s: Seq<u8>, i: int) -> (k: int)
    requires
        0 <= i < entries.len(),
        entries[i].segments.len() > 0,
        entries[i].segments[0] == SegmentModel::Static(s),
    ensures
        0 <= k < under_static(entries, s).len(),
        under_static(entries, s)[k] == behind_first(entries[i]),
        forall|l: int|
            k < l < under_static(entries, s).len() ==> exists|j: int|
                i < j < entries.len() && (#[trigger] entries[j]).segments.len() > 0
                    && entries[j].segments[0] == SegmentModel::Static(s)
                    && #[trigger] under_static(entries, s)[l] == behind_first(entries[j]),
    decreases entries.len(),
{
    let front = entries.drop_last();
    if i == entries.len() - 1 {
        under_static(entries, s).len() - 1
    } else {
        let k = lemma_into_static(front, s, i);
        assert forall|l: int| k < l < under_static(entries, s).len() implies exists|j: int|
            i < j < entries.len() && (#[trigger] entries[j]).segments.len() > 0
                && entries[j].segments[0] == SegmentModel::Static(s) && #[trigger] under_static(
                entries,
                s,
            )[l] == behind_first(entries[j]) by {
            if l < under_static(front, s).len() {
                assert(under_static(front, s)[l] == under_static(entries, s)[l]);
                let j = choose|j: int|
                    i < j < front.len() && (#[trigger] front[j]).segments.len() > 0
                        && front[j].segments[0] == SegmentModel::Static(s) && under_static(
                        front,
                        s,
                    )[l] == behind_first(front[j]);
                assert(entries[j] == front[j]);
            } else {
                assert(entries[entries.len() - 1] == entries.last());
            }
        }
        k
    }
}

proof fn lemma_into_param<H>(entries: Seq<Entry<H>>, i: int) -> (k: int)
    requires
        0 <= i < entries.len(),
        entries[i].segments.len() > 0,
        entries[i].segments[0] is Param,
    ensures
        param_name(entries) is Some,
        0 <= k < under_param(entries).len(),
        under_param(entries)[k] == behind_first(entries[i]),
        forall|l: int|
            k < l < under_param(entries).len() ==> exists|j: int|
                i < j < entries.len() && (#[trigger] entries[j]).segments.len() > 0
                    && entries[j].segments[0] is Param && #[trigger] under_param(entries)[l]
                    == behind_first(entries[j]),
    decreases entries.len(),
{
    let front = entries.drop_last();
    if i == entries.len() - 1 {
        under_param(entries).len() - 1
    } else {
        let k = lemma_into_param(front, i);
        assert forall|l: int| k < l < under_param(entries).len() implies exists|j: int|
            i < j < entries.len() && (#[trigger] entries[j]).segments.len() > 0
                && entries[j].segments[0] is Param && #[trigger] under_param(entries)[l]
                == behind_first(entries[j]) by {
            if l < under_param(front).len() {
                assert(under_param(front)[l] == under_param(entries)[l]);
                let j = choose|j: int|
                    i < j < front.len() && (#[trigger] front[j]).segments.len() > 0
                        && front[j].segments[0] is Param && under_param(front)[l]
                        == behind_first(front[j]);
                assert(entries[j] == front[j]);
            } else {
                assert(entries[entries.len() - 1] == entries.last());
            }
        }
        k
    }
}

proof fn lemma_into_terminal<H>(entries: Seq<Entry<H>>, i: int) -> (k: int)
    requires
        0 <= i < entries.len(),
        entries[i].segments.len() == 0,
    ensures
        0 <= k < terminal(entries).len(),
        terminal(entries)[k] == entries[i].route,
    decreases entries.len(),
{
    if i == entries.len() - 1 {
        terminal(entries).len() - 1
    } else {
        lemma_into_terminal(entries.drop_last(), i)
    }
}

proof fn lemma_into_catch_all<H>(entries: Seq<Entry<H>>, i: int)
    requires
        0 <= i < entries.len(),
        entries[i].segments.len() > 0,
        entries[i].segments[0] is CatchAll,
        forall|j: int|
            i < j < entries.len() ==> !((#[trigger] entries[j]).segments.len() > 0
                && entries[j].segments[0] is CatchAll),
    ensures
        catch_all_route(entries) == Some(entries[i].route),
    decreases entries.len(),
{
    if i < entries.len() - 1 {
        assert(entries.last() == entries[entries.len() - 1]);
        let front = entries.drop_last();
        assert forall|j: int| i < j < front.len() implies !((#[trigger] front[j]).segments.len() > 0
            && front[j].segments[0] is CatchAll) by {
            assert(front[j] == entries[j]);
        }
        lemma_into_catch_all(front, i);
    }
}

proof fn lemma_first_for_exists<H>(routes: Seq<RouteDefinition<H>>, method: HttpMethod, k: int)
    requires
        0 <= k < routes.len(),
        routes[k].method == method,
    ensures
        first_for(routes, method) is Some,
    decreases routes.len(),
{
    if routes[0].method != method {
        lemma_first_for_exists(routes.skip(1), method, k - 1);
    }
}

/// A request is answered where a route for its method has a pattern that fits
/// its path and has not been replaced. A route is replaced only by one that is
/// registered later and has the catch-all in the same place.
pub proof fn law_fitting_route_answers<H>(
    entries: Seq<Entry<H>>,
    method: HttpMethod,
    path: Seq<u8>,
    i: int,
)
    requires
        0 <= i < entries.len(),
        entries[i].route.method == method,
        fits(entries[i].segments, path),
        forall|j: int|
            i < j < entries.len() ==> !replaces(
                (#[trigger] entries[j]).segments,
                entries[i].segments,
            ),
    ensures
        lookup(entries, method, path) is Some,
    decreases path.len(),
{
    lemma_split_path(path);
    let segments = entries[i].segments;
    if segments.len() > 0 && segments[0] is CatchAll {
        assert forall|j: int| i < j < entries.len() implies !((
        #[trigger] entries[j]).segments.len() > 0 && entries[j].segments[0] is CatchAll) by {
            assert(!replaces(entries[j].segments, segments));
        }
        lemma_into_catch_all(entries, i);
    } else if split_path(path) is None {
        let k = lemma_into_terminal(entries, i);
        lemma_first_for_exists(terminal(entries), method, k);
    } else {
        let p = split_path(path)->Some_0;
        match segments[0] {
            SegmentModel::Static(s) => {
                let k = lemma_into_static(entries, s, i);
                let under = under_static(entries, s);
                assert forall|l: int| k < l < under.len() implies !replaces(
                    (#[trigger] under[l]).segments,
                    under[k].segments,
                ) by {
                    let j = choose|j: int|
                        i < j < entries.len() && (#[trigger] entries[j]).segments.len() > 0
                            && entries[j].segments[0] == SegmentModel::Static(s) && under[l]
                            == behind_first(entries[j]);
                    assert(!replaces(entries[j].segments, segments));
                }
                law_fitting_route_answers(under, method, p.1, k);
            },
            SegmentModel::Param(_) => {
                let k = lemma_into_param(entries, i);
                let under = under_param(entries);
                assert forall|l: int| k < l < under.len() implies !replaces(
                    (#[trigger] under[l]).segments,
                    under[k].segments,
                ) by {
                    let j = choose|j: int|
                        i < j < entries.len() && (#[trigger] entries[j]).segments.len() > 0
                            && entries[j].segments[0] is Param && under[l] == behind_first(
                            entries[j],
                        );
                    assert(!replaces(entries[j].segments, segments));
                }
                law_fitting_route_answers(under, method, p.1, k);
            },
            SegmentModel::CatchAll => {},
        }
    }
}

/// A query behind a path makes no difference to what answers it.
pub proof fn law_query_ignored(path: Seq<u8>, query: Seq<u8>)
    requires
        forall|i: int| 0 <= i < path.len() ==> #[trigger] path[i] != 63,
    ensures
        path_of(path + seq![63u8] + query) == path_of(path),
        path_of(path) == path,
{
    let whole = path + seq![63u8] + query;
    lemma_position(path, 63);
    lemma_position(whole, 63);
    assert(whole[path.len() as int] == 63);
    let at = position(whole, 63);
    if at < path.len() {
        assert(whole[at] == path[at]);
    }
    assert(path_of(whole) =~= path);
    assert(path_of(path) =~= path);
}

/// What is left without leading slashes is a suffix.
proof fn lemma_without_slashes(path: Seq<u8>)
    ensures
        without_slashes(path).len() <= path.len(),
        without_slashes(path) == path.skip(path.len() - without_slashes(path).len()),
        path.len() > 0 && path[0] == 47 ==> without_slashes(path).len() < path.len(),
    decreases path.len(),
{
    if path.len() > 0 && path[0] == 47 {
        lemma_without_slashes(path.skip(1));
        assert(path.skip(1).skip(path.len() - 1 - without_slashes(path).len()) =~= path.skip(
            path.len() - without_slashes(path).len(),
        ));
    } else {
        assert(path.skip(0) =~= path);
    }
}

/// Where a catch-all that is not a pattern's last segment stands.
proof fn lemma_inner_catch_all(pattern: Seq<u8>, k: int) -> (at: int)
    requires
        0 <= k,
        k + 1 < segments_of(pattern).len(),
        segments_of(pattern)[k] is CatchAll,
    ensures
        occurs_at(pattern, "{__path__}".spec_bytes(), at),
        pattern.len() >= at + 12,
    decreases pattern.len(),
{
    reveal_strlit("{__path__}");
    assert(is_ascii("{__path__}"));
    lemma_split_path(pattern);
    lemma_without_slashes(pattern);
    let t = without_slashes(pattern);
    let n = pattern.len() - t.len();
    let end = position(t, 47);
    lemma_position(t, 47);
    let rest = t.skip(end);
    assert(pattern.skip(n).skip(end) =~= pattern.skip(n + end));
    if k == 0 {
        assert(segments_of(pattern).skip(1) =~= segments_of(rest));
        lemma_split_path(rest);
        lemma_without_slashes(rest);
        assert(segments_of(rest).len() > 0);
        assert(rest[0] == 47);
        assert(pattern.subrange(n, n + 10) =~= t.take(end));
        n
    } else {
        assert(segments_of(pattern)[k] == segments_of(rest)[k - 1]);
        let x = lemma_inner_catch_all(rest, k - 1);
        assert(rest.subrange(x, x + 10) =~= pattern.subrange(n + end + x, n + end + x + 10));
        n + end + x
    }
}

/// In the pattern of a defined route the catch-all can only be the last segment.
pub proof fn law_catch_all_last(pattern: Seq<u8>, k: int)
    requires
        route_fault(pattern) is None,
        0 <= k < segments_of(pattern).len(),
        segments_of(pattern)[k] is CatchAll,
    ensures
        k == segments_of(pattern).len() - 1,
{
    if k + 1 < segments_of(pattern).len() {
        let at = lemma_inner_catch_all(pattern, k);
        lemma_first_at(pattern, "{__path__}".spec_bytes());
        reveal_strlit("{__path__}");
        reveal_strlit("/");
        assert(is_ascii("{__path__}") && is_ascii("/"));
    }
}

/// What leading slashes do to a path with something behind it.
pub proof fn lemma_slashes_concat(a: Seq<u8>, b: Seq<u8>)
    ensures
        without_slashes(a).len() == 0 ==> without_slashes(a + b) == without_slashes(b),
        without_slashes(a).len() > 0 ==> without_slashes(a + b) == without_slashes(a) + b,
    decreases a.len(),
{
    if a.len() == 0 {
        assert(a + b =~= b);
    } else if a[0] == 47 {
        lemma_slashes_concat(a.skip(1), b);
        assert((a + b).skip(1) =~= a.skip(1) + b);
    }
}

/// What answers does not depend on the slashes that a path starts with.
proof fn lemma_lookup_bare<H>(
    entries: Seq<Entry<H>>,
    method: HttpMethod,
    a: Seq<u8>,
    b: Seq<u8>,
)
    requires
        without_slashes(a) == without_slashes(b),
    ensures
        lookup(entries, method, a) == lookup(entries, method, b),
{
    assert(split_path(a) == split_path(b));
}

/// The catch-all, where it has captured something, has captured no more than
/// `len` bytes.
pub open spec fn tail_within(params: Seq<Pair>, len: nat) -> bool {
    forall|i: int|
        0 <= i < params.len() && (#[trigger] params[i]).0 == "__path__".spec_bytes()
            ==> params[i].1.len() <= len
}

/// One slash more between `front` and `behind`, which starts with a slash or is
/// empty, makes no difference to which route answers. It makes none to what is
/// captured either, unless it stands in what the catch-all takes: a catch-all
/// that starts at `behind` or later takes no more than that.
pub proof fn law_slashes_ignored<H>(
    entries: Seq<Entry<H>>,
    method: HttpMethod,
    front: Seq<u8>,
    behind: Seq<u8>,
)
    requires
        behind.len() > 0 ==> behind[0] == 47,
    ensures
        ({
            let plain = lookup(entries, method, front + behind);
            let slashed = lookup(entries, method, front + seq![47u8] + behind);
            &&& plain is Some <==> slashed is Some
            &&& plain matches Some(m) ==> slashed->Some_0.0 == m.0
            &&& plain matches Some(m) ==> tail_within(m.1, without_slashes(behind).len())
                ==> slashed == plain
        }),
    decreases front.len(),
{
    let a = front + behind;
    let more = seq![47u8] + behind;
    let b = front + seq![47u8] + behind;
    assert(b =~= front + more);
    assert(more.skip(1) =~= behind);
    assert(without_slashes(more) == without_slashes(behind));
    lemma_slashes_concat(front, behind);
    lemma_slashes_concat(front, more);
    lemma_split_path(front);
    lemma_split_path(a);
    lemma_split_path(b);
    let t = without_slashes(front);
    if t.len() == 0 {
        lemma_lookup_bare(entries, method, a, b);
    } else {
        let end = position(t, 47);
        lemma_position(t, 47);
        lemma_position_in_front(t, behind);
        lemma_position_in_front(t, more);
        let seg = t.take(end);
        let rest = t.skip(end);
        assert((t + behind).take(end) =~= seg);
        assert((t + more).take(end) =~= seg);
        assert((t + behind).skip(end) =~= rest + behind);
        assert((t + more).skip(end) =~= rest + seq![47u8] + behind);
        law_slashes_ignored(under_static(entries, seg), method, rest, behind);
        law_slashes_ignored(under_param(entries), method, rest, behind);
        let plain = lookup(entries, method, a);
        let by_literal = lookup(under_static(entries, seg), method, rest + behind);
        let by_param = lookup(under_param(entries), method, rest + behind);
        let len = without_slashes(behind).len();
        lemma_split_path(behind);
        if plain is Some && tail_within(plain->Some_0.1, len) {
            let captured = plain->Some_0.1;
            if by_literal is None && param_name(entries) is Some && by_param is Some {
                let inner = by_param->Some_0.1;
                assert forall|i: int|
                    0 <= i < inner.len() && (#[trigger] inner[i]).0
                        == "__path__".spec_bytes() implies inner[i].1.len() <= len by {
                    assert(captured[i + 1] == inner[i]);
                }
            } else if by_literal is None {
                assert(captured[0].1.len() == t.len() + behind.len());
            }
        }
    }
}

/// The first slash of a text with another behind it, which starts with a slash or
/// is empty.
proof fn lemma_position_in_front(t: Seq<u8>, behind: Seq<u8>)
    requires
        behind.len() > 0 ==> behind[0] == 47,
    ensures
        position(t + behind, 47) == position(t, 47),
{
    let end = position(t, 47);
    lemma_position(t, 47);
    assert forall|j: int| 0 <= j < end implies (t + behind)[j] != 47 by {
        assert((t + behind)[j] == t[j]);
    }
    lemma_position_is(t + behind, 47, end);
}

/// A doubled slash makes no difference outside of what the catch-all takes.
pub proof fn law_doubled_slash<H>(
    entries: Seq<Entry<H>>,
    method: HttpMethod,
    front: Seq<u8>,
    behind: Seq<u8>,
)
    requires
        behind.len() > 0,
        behind[0] == 47,
        lookup(entries, method, front + behind) matches Some(m) ==> tail_within(
            m.1,
            without_slashes(behind).len(),
        ),
    ensures
        lookup(entries, method, front + seq![47u8] + behind) == lookup(
            entries,
            method,
            front + behind,
        ),
{
    law_slashes_ignored(entries, method, front, behind);
}

/// A slash at the end of a path makes no difference where no catch-all takes any
/// of it.
pub proof fn law_trailing_slash<H>(entries: Seq<Entry<H>>, method: HttpMethod, path: Seq<u8>)
    requires
        lookup(entries, method, path) matches Some(m) ==> tail_within(m.1, 0),
    ensures
        lookup(entries, method, path + seq![47u8]) == lookup(entries, method, path),
{
    let nothing = Seq::<u8>::empty();
    law_slashes_ignored(entries, method, path, nothing);
    assert(path + nothing =~= path);
    assert(path + seq![47u8] + nothing =~= path + seq![47u8]);
    assert(without_slashes(nothing).len() == 0);
}

/// Registering a route adds it: it or another one answers wherever its pattern
/// fits. A request that was answered is still answered, unless the new route
/// replaces the one that answered it.
pub proof fn law_registered<H>(
    entries: Seq<Entry<H>>,
    added: Entry<H>,
    method: HttpMethod,
    path: Seq<u8>,
)
    ensures
        added.route.method == method && fits(added.segments, path) ==> lookup(
            entries.push(added),
            method,
            path,
        ) is Some,
        lookup(entries, method, path) matches Some(m) ==> (forall|i: int|
            0 <= i < entries.len() && (#[trigger] entries[i]).route == m.0 ==> !replaces(
                added.segments,
                entries[i].segments,
            )) ==> lookup(entries.push(added), method, path) is Some,
{
    let all = entries.push(added);
    let last = entries.len() as int;
    if added.route.method == method && fits(added.segments, path) {
        assert(all[last] == added);
        law_fitting_route_answers(all, method, path, last);
    }
    if let Some(m) = lookup(entries, method, path) {
        if forall|i: int|
            0 <= i < entries.len() && (#[trigger] entries[i]).route == m.0 ==> !replaces(
                added.segments,
                entries[i].segments,
            ) {
            let i = lemma_found(entries, method, path);
            assert(all[i] == entries[i]);
            assert forall|j: int| i < j < all.len() implies !replaces(
                (#[trigger] all[j]).segments,
                all[i].segments,
            ) by {
                if j < last {
                    assert(all[j] == entries[j]);
                }
            }
            law_fitting_route_answers(all, method, path, i);
        }
    }
}

impl<H> Node<H> {
    /// In this node and every node below it the literals stand in order.
    spec fn ordered(&self) -> bool
        decreases self,
    {
        &&& self.sorted()
        &&& forall|i: int|
            0 <= i < self.static_children@.len() ==> (
            #[trigger] self.static_children@[i]).1.ordered()
        &&& match self.param_child {
            Some(p) => p.1.ordered(),
            None => true,
        }
    }

    proof fn lemma_ordered(&self)
        requires
            self.wf(),
        ensures
            self.ordered(),
        decreases self,
    {
        assert forall|i: int| 0 <= i < self.static_children@.len() implies (
        #[trigger] self.static_children@[i]).1.ordered() by {
            self.static_children@[i].1.lemma_ordered();
        }
        if let Some(p) = self.param_child {
            p.1.lemma_ordered();
        }
    }
}

impl<H> Router<H> {
    /// In every node of the tree the literals stand in order.
    pub closed spec fn ordered(&self) -> bool {
        self.root.ordered()
    }

    /// In every node of a router's tree the literals stand in order.
    pub proof fn law_ordered(&self)
        requires
            self.wf(),
        ensures
            self.ordered(),
    {
        self.root.lemma_ordered();
    }
}

/// A route is among those that have been registered under segments and have not
/// been replaced.
pub open spec fn present<H>(
    entries: Seq<Entry<H>>,
    segments: Seq<SegmentModel>,
    route: RouteDefinition<H>,
) -> bool
    decreases segments.len(),
{
    if segments.len() == 0 {
        terminal(entries).contains(route)
    } else {
        match segments[0] {
            SegmentModel::Static(s) => present(under_static(entries, s), segments.skip(1), route),
            SegmentModel::Param(_) => present(under_param(entries), segments.skip(1), route),
            SegmentModel::CatchAll => catch_all_route(entries) == Some(route),
        }
    }
}

proof fn lemma_nothing_present<H>(segments: Seq<SegmentModel>, route: RouteDefinition<H>)
    ensures
        !present(Seq::<Entry<H>>::empty(), segments, route),
    decreases segments.len(),
{
    if segments.len() > 0 && !(segments[0] is CatchAll) {
        lemma_nothing_present(segments.skip(1), route);
    }
}

/// Registering a route adds it, and keeps what it does not replace.
proof fn lemma_present_pushed<H>(
    entries: Seq<Entry<H>>,
    added: Entry<H>,
    segments: Seq<SegmentModel>,
    route: RouteDefinition<H>,
)
    ensures
        segments == added.segments && route == added.route ==> present(
            entries.push(added),
            segments,
            route,
        ),
        present(entries, segments, route) && !replaces(added.segments, segments) ==> present(
            entries.push(added),
            segments,
            route,
        ),
    decreases segments.len(),
{
    let all = entries.push(added);
    assert(all.drop_last() =~= entries);
    if segments.len() == 0 {
        if added.segments.len() == 0 {
            let before = terminal(entries);
            let after = terminal(all);
            assert(after == before.push(added.route));
            assert(after[before.len() as int] == added.route);
            if before.contains(route) {
                let i = choose|i: int| 0 <= i < before.len() && before[i] == route;
                assert(after[i] == route);
            }
        }
    } else {
        match segments[0] {
            SegmentModel::Static(s) => {
                lemma_present_pushed(
                    under_static(entries, s),
                    behind_first(added),
                    segments.skip(1),
                    route,
                );
            },
            SegmentModel::Param(_) => {
                lemma_present_pushed(
                    under_param(entries),
                    behind_first(added),
                    segments.skip(1),
                    route,
                );
            },
            SegmentModel::CatchAll => {},
        }
    }
}

impl<H> Node<H> {
    /// The tree from this node on holds a route under segments.
    spec fn holds(&self, segments: Seq<SegmentModel>, route: RouteDefinition<H>) -> bool
        decreases self,
    {
        if segments.len() == 0 {
            self.handlers@.contains(route)
        } else {
            match segments[0] {
                SegmentModel::Static(s) => exists|i: int|
                    0 <= i < self.static_children@.len() && self.key(i) == s && (
                    #[trigger] self.static_children@[i]).1.holds(segments.skip(1), route),
                SegmentModel::Param(_) => match self.param_child {
                    Some(p) => p.1.holds(segments.skip(1), route),
                    None => false,
                },
                SegmentModel::CatchAll => self.catch_all == Some(route),
            }
        }
    }

    proof fn lemma_holds(&self, segments: Seq<SegmentModel>, route: RouteDefinition<H>)
        requires
            self.wf(),
        ensures
            self.holds(segments, route) == present(self.entries@, segments, route),
        decreases self,
    {
        if segments.len() > 0 {
            let rest = segments.skip(1);
            match segments[0] {
                SegmentModel::Static(s) => {
                    let under = under_static(self.entries@, s);
                    assert forall|i: int|
                        0 <= i < self.static_children@.len() && self.key(i) == s implies (
                    #[trigger] self.static_children@[i]).1.holds(rest, route) == present(
                        under,
                        rest,
                        route,
                    ) by {
                        self.static_children@[i].1.lemma_holds(rest, route);
                    }
                    if present(under, rest, route) {
                        if under.len() == 0 {
                            assert(under =~= Seq::empty());
                            lemma_nothing_present(rest, route);
                        }
                        assert(self.has_key(s));
                        let i = choose|i: int|
                            0 <= i < self.static_children@.len() && #[trigger] self.key(i) == s;
                        assert(self.static_children@[i].1.holds(rest, route));
                    }
                },
                SegmentModel::Param(_) => {
                    match self.param_child {
                        Some(p) => {
                            p.1.lemma_holds(rest, route);
                        },
                        None => {
                            assert(under_param(self.entries@) =~= Seq::empty());
                            lemma_nothing_present(rest, route);
                        },
                    }
                },
                SegmentModel::CatchAll => {},
            }
        }
    }
}

impl<H> Router<H> {
    /// The tree holds a route under segments.
    pub closed spec fn holds(
        &self,
        segments: Seq<SegmentModel>,
        route: RouteDefinition<H>,
    ) -> bool {
        self.root.holds(segments, route)
    }

    /// The tree holds exactly the routes that have been registered and not replaced.
    pub proof fn law_holds(&self, segments: Seq<SegmentModel>, route: RouteDefinition<H>)
        requires
            self.wf(),
        ensures
            self.holds(segments, route) == present(self@, segments, route),
    {
        self.root.lemma_holds(segments, route);
    }
}

// ── What a path and a pattern consist of ───────────────────────────────────

/// The segments of a path: what stands between slashes and is not empty.
pub open spec fn path_segments(path: Seq<u8>) -> Seq<Seq<u8>>
    decreases path.len(),
{
    proof {
        lemma_split_path(path);
    }
    match split_path(path) {
        None => Seq::empty(),
        Some(p) => seq![p.0] + path_segments(p.1),
    }
}

proof fn lemma_path_segments_bare(a: Seq<u8>, b: Seq<u8>)
    requires
        without_slashes(a) == without_slashes(b),
    ensures
        path_segments(a) == path_segments(b),
{
    assert(split_path(a) == split_path(b));
}

proof fn lemma_path_concat(a: Seq<u8>, b: Seq<u8>)
    requires
        b.len() > 0,
        b[0] == 47,
    ensures
        path_segments(a + b) == path_segments(a) + path_segments(b),
    decreases a.len(),
{
    lemma_slashes_concat(a, b);
    let t = without_slashes(a);
    lemma_split_path(a);
    if t.len() == 0 {
        lemma_path_segments_bare(a + b, b);
        assert(path_segments(a) =~= Seq::<Seq<u8>>::empty());
        assert(path_segments(a) + path_segments(b) =~= path_segments(b));
    } else {
        let end = position(t, 47);
        lemma_position(t, 47);
        lemma_position_in_front(t, b);
        assert((t + b).take(end) =~= t.take(end));
        assert((t + b).skip(end) =~= t.skip(end) + b);
        lemma_path_concat(t.skip(end), b);
        let first = seq![t.take(end)];
        assert(path_segments(a + b) == first + (path_segments(t.skip(end)) + path_segments(b)));
        assert(path_segments(a + b) =~= path_segments(a) + path_segments(b));
    }
}

/// The segments of two paths with a slash between them are those of both; a text
/// without a slash is one segment, and nothing has none.
pub proof fn law_path_segments(a: Seq<u8>, b: Seq<u8>, one: Seq<u8>)
    requires
        one.len() > 0,
        forall|i: int| 0 <= i < one.len() ==> #[trigger] one[i] != 47,
    ensures
        path_segments(a + seq![47u8] + b) == path_segments(a) + path_segments(b),
        path_segments(one) == seq![one],
        path_segments(Seq::<u8>::empty()) == Seq::<Seq<u8>>::empty(),
{
    let behind = seq![47u8] + b;
    assert(a + seq![47u8] + b =~= a + behind);
    lemma_path_concat(a, behind);
    assert(behind.skip(1) =~= b);
    lemma_path_segments_bare(behind, b);
    lemma_position_is(one, 47, one.len() as int);
    assert(without_slashes(one) == one);
    assert(one.take(one.len() as int) =~= one);
    assert(one.skip(one.len() as int) =~= Seq::<u8>::empty());
    assert(path_segments(Seq::<u8>::empty()) =~= Seq::<Seq<u8>>::empty());
    assert(split_path(one) == Some((one, Seq::<u8>::empty())));
    assert(path_segments(one) =~= seq![one]);
}

/// No segment of a path is empty or holds a slash.
pub proof fn law_segments_bare(path: Seq<u8>)
    ensures
        forall|i: int|
            0 <= i < path_segments(path).len() ==> (#[trigger] path_segments(path)[i]).len() > 0,
        forall|i: int, j: int|
            0 <= i < path_segments(path).len() && 0 <= j < path_segments(path)[i].len() ==> (
            #[trigger] path_segments(path)[i][j]) != 47,
    decreases path.len(),
{
    lemma_split_path(path);
    if let Some(p) = split_path(path) {
        law_segments_bare(p.1);
        let t = without_slashes(path);
        lemma_position(t, 47);
        let all = path_segments(path);
        assert forall|i: int, j: int|
            0 <= i < all.len() && 0 <= j < all[i].len() implies (#[trigger] all[i][j]) != 47 by {
            if i == 0 {
                assert(all[0][j] == t[j]);
            } else {
                assert(all[i] == path_segments(p.1)[i - 1]);
            }
        }
        assert forall|i: int| 0 <= i < all.len() implies (#[trigger] all[i]).len() > 0 by {
            if i > 0 {
                assert(all[i] == path_segments(p.1)[i - 1]);
            }
        }
    }
}

/// A pattern has one segment for each segment of its text: the catch-all for
/// `{__path__}`, a parameter for any other text in braces, and a literal for any
/// other text.
pub proof fn law_pattern_segments(pattern: Seq<u8>, i: int)
    requires
        0 <= i < path_segments(pattern).len(),
    ensures
        segments_of(pattern).len() == path_segments(pattern).len(),
        ({
            let text = path_segments(pattern)[i];
            let segment = segments_of(pattern)[i];
            &&& segment == SegmentModel::CatchAll <==> text == "{__path__}".spec_bytes()
            &&& forall|name: Seq<u8>|
                segment == SegmentModel::Param(name) <==> #[trigger] (seq![123u8] + name + seq![
                    125u8,
                ]) == text && text != "{__path__}".spec_bytes()
            &&& segment is Static <==> text.len() < 2 || text[0] != 123 || text.last() != 125
            &&& segment matches SegmentModel::Static(s) ==> s == text
        }),
    decreases pattern.len(),
{
    reveal_strlit("{__path__}");
    assert(is_ascii("{__path__}"));
    lemma_split_path(pattern);
    let p = split_path(pattern)->Some_0;
    lemma_pattern_len(pattern);
    if i > 0 {
        assert(path_segments(pattern)[i] == path_segments(p.1)[i - 1]);
        assert(segments_of(pattern)[i] == segments_of(p.1)[i - 1]);
        law_pattern_segments(p.1, i - 1);
    } else {
        let text = p.0;
        assert forall|name: Seq<u8>|
            segment_of(text) == SegmentModel::Param(name) <==> #[trigger] (seq![123u8] + name + seq![
                125u8,
            ]) == text && text != "{__path__}".spec_bytes() by {
            let braced = seq![123u8] + name + seq![125u8];
            assert(braced.subrange(1, braced.len() - 1) =~= name);
            if segment_of(text) == SegmentModel::Param(name) {
                assert(braced =~= text);
            }
        }
    }
}

proof fn lemma_pattern_len(pattern: Seq<u8>)
    ensures
        segments_of(pattern).len() == path_segments(pattern).len(),
    decreases pattern.len(),
{
    lemma_split_path(pattern);
    if let Some(p) = split_path(pattern) {
        lemma_pattern_len(p.1);
    }
}

/// The first catch-all of a pattern stands at `c`, or there is none and `c` is
/// the pattern's length.
pub open spec fn reach(segments: Seq<SegmentModel>, c: int) -> bool {
    &&& 0 <= c <= segments.len()
    &&& c < segments.len() ==> segments[c] is CatchAll
    &&& forall|d: int| 0 <= d < c ==> !((#[trigger] segments[d]) is CatchAll)
}

/// What it is for a pattern to fit a path: up to its first catch-all each literal
/// is the segment in its place; without a catch-all it has as many segments as the
/// path, and with one the path has at least those before it.
#[verifier::spinoff_prover]
pub proof fn law_fits(segments: Seq<SegmentModel>, path: Seq<u8>, c: int)
    requires
        reach(segments, c),
    ensures
        fits(segments, path) <==> {
            let texts = path_segments(path);
            &&& c <= texts.len()
            &&& c == segments.len() ==> c == texts.len()
            &&& forall|d: int|
                0 <= d < c ==> ((#[trigger] segments[d]) matches SegmentModel::Static(s) ==> s
                    == texts[d])
        },
    decreases path.len(),
{
    lemma_split_path(path);
    let texts = path_segments(path);
    if c > 0 {
        if let Some(p) = split_path(path) {
            let rest = segments.skip(1);
            assert(reach(rest, c - 1)) by {
                assert forall|d: int| 0 <= d < c - 1 implies !((#[trigger] rest[d]) is CatchAll) by {
                    assert(rest[d] == segments[d + 1]);
                }
            }
            law_fits(rest, p.1, c - 1);
            let inner = path_segments(p.1);
            assert(texts.len() == inner.len() + 1);
            assert forall|d: int| 0 <= d < inner.len() implies inner[d] == #[trigger] texts[d + 1] by {}
            if fits(segments, path) {
                assert forall|d: int| 0 <= d < c implies ((
                #[trigger] segments[d]) matches SegmentModel::Static(s) ==> s == texts[d]) by {
                    if d > 0 {
                        assert(rest[d - 1] == segments[d]);
                        assert(texts[d - 1 + 1] == inner[d - 1]);
                    }
                }
            }
            if c <= texts.len() && (c == segments.len() ==> c == texts.len()) && (forall|d: int|
                0 <= d < c ==> ((#[trigger] segments[d]) matches SegmentModel::Static(s) ==> s
                    == texts[d])) {
                assert forall|d: int| 0 <= d < c - 1 implies ((
                #[trigger] rest[d]) matches SegmentModel::Static(s) ==> s == inner[d]) by {
                    assert(rest[d] == segments[d + 1]);
                    assert(texts[d + 1] == inner[d]);
                }
                assert(!(segments[0] is CatchAll));
            }
        }
        assert(!(segments[0] is CatchAll));
    }
}

/// How many parameters stand among the first `d` segments.
pub open spec fn params_before(segments: Seq<SegmentModel>, d: int) -> int
    decreases d,
{
    if d <= 0 {
        0
    } else {
        params_before(segments, d - 1) + (if segments[d - 1] is Param {
            1int
        } else {
            0int
        })
    }
}

proof fn lemma_params_before(segments: Seq<SegmentModel>, d: int)
    requires
        0 < d <= segments.len(),
    ensures
        params_before(segments, d) == params_before(segments.skip(1), d - 1) + (if segments[0] is Param {
            1int
        } else {
            0int
        }),
        params_before(segments, d) >= 0,
        params_before(segments.skip(1), d - 1) >= 0,
    decreases d,
{
    if d > 1 {
        lemma_params_before(segments, d - 1);
        assert(segments.skip(1)[d - 2] == segments[d - 1]);
    } else {
        assert(params_before(segments, 0) == 0);
        assert(params_before(segments.skip(1), 0) == 0);
    }
}

/// What a pattern that fits a path captures: for each parameter before the first
/// catch-all the segment in its place, in order, and for the catch-all what is
/// left of the path from the next segment on.
#[verifier::spinoff_prover]
pub proof fn law_captures(segments: Seq<SegmentModel>, path: Seq<u8>, c: int)
    requires
        reach(segments, c),
        fits(segments, path),
    ensures
        captures(segments, path).len() == params_before(segments, c) + (if c < segments.len() {
            1int
        } else {
            0int
        }),
        params_before(segments, c) >= 0,
        forall|d: int|
            0 <= d < c && (#[trigger] segments[d]) is Param ==> 0 <= params_before(segments, d)
                < params_before(segments, c) && captures(segments, path)[params_before(segments, d)]
                == path_segments(path)[d],
        c < segments.len() ==> {
            let tail = captures(segments, path).last();
            &&& tail.len() <= path.len()
            &&& tail == path.skip(path.len() - tail.len())
            &&& tail.len() > 0 ==> tail[0] != 47
            &&& path_segments(tail) == path_segments(path).skip(c)
        },
    decreases path.len(),
{
    law_fits(segments, path, c);
    lemma_split_path(path);
    lemma_without_slashes(path);
    let texts = path_segments(path);
    if c == 0 {
        if segments.len() > 0 {
            let tail = without_slashes(path);
            lemma_tail_bare(path);
            lemma_path_segments_bare(tail, path);
            assert(texts.skip(0) =~= texts);
            assert(tail.len() > 0 ==> tail[0] != 47);
        }
    } else {
        assert(!(segments[0] is CatchAll));
        let p = split_path(path)->Some_0;
        let rest = segments.skip(1);
        assert(reach(rest, c - 1)) by {
            assert forall|d: int| 0 <= d < c - 1 implies !((#[trigger] rest[d]) is CatchAll) by {
                assert(rest[d] == segments[d + 1]);
            }
        }
        law_captures(rest, p.1, c - 1);
        lemma_params_before(segments, c);
        assert(texts == seq![p.0] + path_segments(p.1));
        let inner = captures(rest, p.1);
        let all = captures(segments, path);
        let shift = if segments[0] is Param {
            1int
        } else {
            0int
        };
        assert forall|k: int| 0 <= k < inner.len() implies #[trigger] inner[k] == all[k + shift] by {}
        assert forall|d: int| 0 <= d < c && (#[trigger] segments[d]) is Param implies 0
            <= params_before(segments, d) < params_before(segments, c)
            && all[params_before(segments, d)] == texts[d] by {
            if d == 0 {
                assert(params_before(segments, 0) == 0);
            } else {
                assert(rest[d - 1] == segments[d]);
                lemma_params_before(segments, d);
                assert(inner[params_before(rest, d - 1)] == all[params_before(rest, d - 1) + shift]);
                assert(path_segments(p.1)[d - 1] == texts[d]);
            }
        }
        if c < segments.len() {
            let tail = all.last();
            assert(tail == inner.last());
            let t = without_slashes(path);
            assert(p.1 == t.skip(t.len() - p.1.len())) by {
                lemma_position(t, 47);
            }
            assert(path.skip(path.len() - t.len()).skip(t.len() - p.1.len()) =~= path.skip(
                path.len() - p.1.len(),
            ));
            assert(path.skip(path.len() - p.1.len()).skip(p.1.len() - tail.len()) =~= path.skip(
                path.len() - tail.len(),
            ));
            assert(path_segments(p.1).skip(c - 1) =~= texts.skip(c));
        }
    }
}

proof fn lemma_tail_bare(path: Seq<u8>)
    ensures
        without_slashes(without_slashes(path)) == without_slashes(path),
{
    lemma_split_path(path);
}

/// What it is for a later pattern to replace an earlier one: the earlier one's
/// first catch-all stands where the later one has one too, and before it both have
/// the same literals and parameters in the same places.
pub proof fn law_replaces(later: Seq<SegmentModel>, earlier: Seq<SegmentModel>, c: int)
    requires
        reach(earlier, c),
    ensures
        replaces(later, earlier) <==> {
            &&& c < earlier.len()
            &&& c < later.len() && later[c] is CatchAll
            &&& forall|d: int|
                0 <= d < c ==> (#[trigger] later[d]) == earlier[d] || later[d] is Param
                    && earlier[d] is Param
        },
    decreases earlier.len(),
{
    if later.len() > 0 && earlier.len() > 0 && c > 0 {
        let l = later.skip(1);
        let e = earlier.skip(1);
        assert(!(earlier[0] is CatchAll));
        assert(reach(e, c - 1)) by {
            assert forall|d: int| 0 <= d < c - 1 implies !((#[trigger] e[d]) is CatchAll) by {
                assert(e[d] == earlier[d + 1]);
            }
        }
        law_replaces(l, e, c - 1);
        if replaces(later, earlier) {
            assert forall|d: int| 0 <= d < c implies (#[trigger] later[d]) == earlier[d]
                || later[d] is Param && earlier[d] is Param by {
                if d > 0 {
                    assert(l[d - 1] == later[d] && e[d - 1] == earlier[d]);
                }
            }
        } else if c < earlier.len() && c < later.len() && later[c] is CatchAll && (forall|d: int|
            0 <= d < c ==> (#[trigger] later[d]) == earlier[d] || later[d] is Param
                && earlier[d] is Param) {
            assert forall|d: int| 0 <= d < c - 1 implies (#[trigger] l[d]) == e[d] || l[d] is Param
                && e[d] is Param by {
                assert(l[d] == later[d + 1] && e[d] == earlier[d + 1]);
            }
            assert(l[c - 1] == later[c]);
            assert(later[0] == earlier[0] || later[0] is Param && earlier[0] is Param);
        }
    }
}

// ── Which of the fitting routes answers ────────────────────────────────────

/// The same literal, or two parameters, whatever their names.
pub open spec fn alike(a: SegmentModel, b: SegmentModel) -> bool {
    a == b || a is Param && b is Param
}

/// Two patterns agree in their first `d` segments.
pub open spec fn agree(a: Seq<SegmentModel>, b: Seq<SegmentModel>, d: int) -> bool {
    &&& 0 <= d <= a.len()
    &&& d <= b.len()
    &&& forall|e: int| 0 <= e < d ==> alike(#[trigger] a[e], b[e])
}

/// How specific a pattern is at `d`: its end and a literal go before a parameter,
/// and a parameter before the catch-all.
pub open spec fn rank(segments: Seq<SegmentModel>, d: int) -> int {
    if d >= segments.len() || segments[d] is Static {
        0
    } else if segments[d] is Param {
        1
    } else {
        2
    }
}

/// Pattern `a` is more specific than `b`: at the first segment in which they
/// differ it has the lower rank.
pub open spec fn more_specific(a: Seq<SegmentModel>, b: Seq<SegmentModel>) -> bool {
    exists|d: int| #[trigger] agree(a, b, d) && rank(a, d) < rank(b, d)
}

/// An entry may answer: it is for the method, its pattern fits the path, and no
/// later one has replaced it.
pub open spec fn eligible<H>(
    entries: Seq<Entry<H>>,
    method: HttpMethod,
    path: Seq<u8>,
    i: int,
) -> bool {
    &&& 0 <= i < entries.len()
    &&& entries[i].route.method == method
    &&& fits(entries[i].segments, path)
    &&& forall|j: int|
        i < j < entries.len() ==> !replaces((#[trigger] entries[j]).segments, entries[i].segments)
}

/// Of two entries that may answer, `i` is the one that does: its pattern is more
/// specific, or they have the same pattern up to names and it came first.
pub open spec fn preferred<H>(entries: Seq<Entry<H>>, i: int, j: int) -> bool {
    ||| i == j
    ||| more_specific(entries[i].segments, entries[j].segments)
    ||| i < j && entries[i].segments.len() == entries[j].segments.len() && agree(
        entries[i].segments,
        entries[j].segments,
        entries[i].segments.len() as int,
    )
}

/// Entry `i` may answer and is preferred to every other that may.
pub open spec fn best<H>(entries: Seq<Entry<H>>, method: HttpMethod, path: Seq<u8>, i: int) -> bool {
    &&& eligible(entries, method, path, i)
    &&& forall|j: int| #[trigger] eligible(entries, method, path, j) ==> preferred(entries, i, j)
}

/// Entry `k` has a parameter behind the first `d` segments of a pattern.
pub open spec fn param_at<H>(
    entries: Seq<Entry<H>>,
    k: int,
    segments: Seq<SegmentModel>,
    d: int,
) -> bool {
    &&& agree(entries[k].segments, segments, d)
    &&& d < entries[k].segments.len()
    &&& entries[k].segments[d] is Param
}

/// `name` is what the first entry that has a parameter in that place calls it.
pub open spec fn first_named<H>(
    entries: Seq<Entry<H>>,
    segments: Seq<SegmentModel>,
    d: int,
    name: Seq<u8>,
) -> bool {
    exists|k: int|
        0 <= k < entries.len() && #[trigger] param_at(entries, k, segments, d)
            && entries[k].segments[d] == SegmentModel::Param(name) && (forall|l: int|
            0 <= l < k ==> !#[trigger] param_at(entries, l, segments, d))
}

/// The captured values of a pattern stand under the right names: a parameter's
/// under that of the first entry with a parameter in its place, and the
/// catch-all's under `__path__`.
pub open spec fn named_right<H>(
    entries: Seq<Entry<H>>,
    segments: Seq<SegmentModel>,
    c: int,
    pairs: Seq<Pair>,
) -> bool {
    &&& pairs.len() == params_before(segments, c) + (if c < segments.len() {
        1int
    } else {
        0int
    })
    &&& forall|d: int|
        0 <= d < c && (#[trigger] segments[d]) is Param ==> 0 <= params_before(segments, d)
            < pairs.len() && first_named(
            entries,
            segments,
            d,
            pairs[params_before(segments, d)].0,
        )
    &&& c < segments.len() ==> pairs.last().0 == "__path__".spec_bytes()
}

spec fn starts<H>(entry: Entry<H>, lead: SegmentModel) -> bool {
    entry.segments.len() > 0 && alike(entry.segments[0], lead)
}

/// `under` is what is left of the entries that start with `lead`, which stand at
/// the places `idx`.
spec fn lined_up<H>(
    entries: Seq<Entry<H>>,
    under: Seq<Entry<H>>,
    idx: Seq<int>,
    lead: SegmentModel,
) -> bool {
    &&& idx.len() == under.len()
    &&& forall|k: int|
        0 <= k < idx.len() ==> 0 <= (#[trigger] idx[k]) < entries.len() && starts(
            entries[idx[k]],
            lead,
        ) && under[k] == behind_first(entries[idx[k]])
    &&& forall|k: int, l: int| 0 <= k < l < idx.len() ==> (#[trigger] idx[k]) < (#[trigger] idx[l])
    &&& forall|i: int|
        0 <= i < entries.len() && starts(#[trigger] entries[i], lead) ==> idx.contains(i)
}

proof fn lemma_lined_up_static<H>(entries: Seq<Entry<H>>, s: Seq<u8>) -> (idx: Seq<int>)
    ensures
        lined_up(entries, under_static(entries, s), idx, SegmentModel::Static(s)),
    decreases entries.len(),
{
    let lead = SegmentModel::Static(s);
    if entries.len() == 0 {
        Seq::empty()
    } else {
        let front = entries.drop_last();
        let before = lemma_lined_up_static(front, s);
        let idx = if starts(entries.last(), lead) {
            before.push(entries.len() - 1)
        } else {
            before
        };
        lemma_lined_up_pushed(entries, under_static(front, s), before, lead);
        idx
    }
}

proof fn lemma_lined_up_param<H>(entries: Seq<Entry<H>>, name: Seq<u8>) -> (idx: Seq<int>)
    ensures
        lined_up(entries, under_param(entries), idx, SegmentModel::Param(name)),
    decreases entries.len(),
{
    let lead = SegmentModel::Param(name);
    if entries.len() == 0 {
        Seq::empty()
    } else {
        let front = entries.drop_last();
        let before = lemma_lined_up_param(front, name);
        let idx = if starts(entries.last(), lead) {
            before.push(entries.len() - 1)
        } else {
            before
        };
        lemma_lined_up_pushed(entries, under_param(front), before, lead);
        idx
    }
}

proof fn lemma_lined_up_pushed<H>(
    entries: Seq<Entry<H>>,
    under: Seq<Entry<H>>,
    before: Seq<int>,
    lead: SegmentModel,
)
    requires
        entries.len() > 0,
        lined_up(entries.drop_last(), under, before, lead),
    ensures
        starts(entries.last(), lead) ==> lined_up(
            entries,
            under.push(behind_first(entries.last())),
            before.push(entries.len() - 1),
            lead,
        ),
        !starts(entries.last(), lead) ==> lined_up(entries, under, before, lead),
{
    let front = entries.drop_last();
    let grown = starts(entries.last(), lead);
    let idx = if grown {
        before.push(entries.len() - 1)
    } else {
        before
    };
    let all = if grown {
        under.push(behind_first(entries.last()))
    } else {
        under
    };
    assert forall|k: int| 0 <= k < idx.len() implies 0 <= (#[trigger] idx[k]) < entries.len()
        && starts(entries[idx[k]], lead) && all[k] == behind_first(entries[idx[k]]) by {
        if k < before.len() {
            assert(front[before[k]] == entries[before[k]]);
        }
    }
    assert forall|k: int, l: int| 0 <= k < l < idx.len() implies (#[trigger] idx[k]) < (
    #[trigger] idx[l]) by {
        assert(0 <= before[k] < front.len());
        if l < before.len() {
            assert(before[k] < before[l]);
        }
    }
    assert forall|i: int|
        0 <= i < entries.len() && starts(#[trigger] entries[i], lead) implies idx.contains(i) by {
        if i < front.len() {
            assert(front[i] == entries[i]);
            let k = before.index_of(i);
            assert(idx[k] == i);
        } else {
            assert(idx[idx.len() - 1] == i);
        }
    }
}

/// An entry may answer exactly where what is left of it may answer the rest of
/// the path.
proof fn lemma_eligible_under<H>(
    entries: Seq<Entry<H>>,
    under: Seq<Entry<H>>,
    idx: Seq<int>,
    lead: SegmentModel,
    method: HttpMethod,
    path: Seq<u8>,
    l: int,
)
    requires
        lined_up(entries, under, idx, lead),
        !(lead is CatchAll),
        split_path(path) is Some,
        lead matches SegmentModel::Static(s) ==> s == split_path(path)->Some_0.0,
        0 <= l < idx.len(),
    ensures
        eligible(entries, method, path, idx[l]) <==> eligible(
            under,
            method,
            split_path(path)->Some_0.1,
            l,
        ),
{
    let p = split_path(path)->Some_0;
    let i = idx[l];
    assert(starts(entries[i], lead));
    assert(under[l] == behind_first(entries[i]));
    if eligible(entries, method, path, i) {
        assert forall|m: int| l < m < under.len() implies !replaces(
            (#[trigger] under[m]).segments,
            under[l].segments,
        ) by {
            let j = idx[m];
            assert(idx[l] < idx[m]);
            assert(starts(entries[j], lead));
            assert(under[m] == behind_first(entries[j]));
            assert(!replaces(entries[j].segments, entries[i].segments));
        }
    }
    if eligible(under, method, p.1, l) {
        assert forall|j: int| i < j < entries.len() implies !replaces(
            (#[trigger] entries[j]).segments,
            entries[i].segments,
        ) by {
            if replaces(entries[j].segments, entries[i].segments) {
                assert(starts(entries[j], lead));
                let m = idx.index_of(j);
                assert(idx[m] == j);
                if m <= l {
                    if m < l {
                        assert(idx[m] < idx[l]);
                    }
                }
                assert(under[m] == behind_first(entries[idx[m]]));
                assert(!replaces(under[m].segments, under[l].segments));
            }
        }
    }
}

proof fn lemma_agree_under(a: Seq<SegmentModel>, b: Seq<SegmentModel>, d: int)
    requires
        a.len() > 0,
        b.len() > 0,
        alike(a[0], b[0]),
    ensures
        d >= 0 ==> (agree(a.skip(1), b.skip(1), d) <==> agree(a, b, d + 1)),
        rank(a.skip(1), d) == rank(a, d + 1) || d < 0,
{
    if d >= 0 {
        let x = a.skip(1);
        let y = b.skip(1);
        if agree(x, y, d) {
            assert forall|e: int| 0 <= e < d + 1 implies alike(#[trigger] a[e], b[e]) by {
                if e > 0 {
                    assert(alike(x[e - 1], y[e - 1]));
                }
            }
        }
        if agree(a, b, d + 1) {
            assert forall|e: int| 0 <= e < d implies alike(#[trigger] x[e], y[e]) by {
                assert(alike(a[e + 1], b[e + 1]));
            }
        }
    }
}

/// What is preferred behind a segment is preferred with it.
proof fn lemma_preferred_under<H>(
    entries: Seq<Entry<H>>,
    under: Seq<Entry<H>>,
    idx: Seq<int>,
    lead: SegmentModel,
    k: int,
    l: int,
)
    requires
        lined_up(entries, under, idx, lead),
        0 <= k < idx.len(),
        0 <= l < idx.len(),
        preferred(under, k, l),
    ensures
        preferred(entries, idx[k], idx[l]),
{
    let a = entries[idx[k]].segments;
    let b = entries[idx[l]].segments;
    assert(starts(entries[idx[k]], lead) && starts(entries[idx[l]], lead));
    assert(under[k] == behind_first(entries[idx[k]]) && under[l] == behind_first(entries[idx[l]]));
    assert(alike(a[0], b[0]));
    if k == l {
    } else if more_specific(a.skip(1), b.skip(1)) {
        let d = choose|d: int|
            #[trigger] agree(a.skip(1), b.skip(1), d) && rank(a.skip(1), d) < rank(b.skip(1), d);
        lemma_agree_under(a, b, d);
        lemma_agree_under(b, a, d);
        assert(agree(a, b, d + 1));
    } else {
        lemma_agree_under(a, b, a.len() - 1);
        assert(idx[k] < idx[l]);
    }
}

/// What is best behind a segment is best with it, where nothing that may answer
/// starts with a more specific one.
proof fn lemma_best_under<H>(
    entries: Seq<Entry<H>>,
    under: Seq<Entry<H>>,
    idx: Seq<int>,
    lead: SegmentModel,
    method: HttpMethod,
    path: Seq<u8>,
    k: int,
)
    requires
        lined_up(entries, under, idx, lead),
        !(lead is CatchAll),
        split_path(path) is Some,
        lead matches SegmentModel::Static(s) ==> s == split_path(path)->Some_0.0,
        best(under, method, split_path(path)->Some_0.1, k),
        lead is Param ==> forall|j: int| #[trigger]
            eligible(entries, method, path, j) ==> rank(entries[j].segments, 0) > 0,
    ensures
        best(entries, method, path, idx[k]),
{
    let p = split_path(path)->Some_0;
    lemma_split_path(path);
    lemma_eligible_under(entries, under, idx, lead, method, path, k);
    let i = idx[k];
    assert(starts(entries[i], lead));
    assert forall|j: int| #[trigger] eligible(entries, method, path, j) implies preferred(
        entries,
        i,
        j,
    ) by {
        let b = entries[j].segments;
        assert(b.len() > 0);
        if starts(entries[j], lead) {
            let l = idx.index_of(j);
            assert(idx[l] == j);
            lemma_eligible_under(entries, under, idx, lead, method, path, l);
            lemma_preferred_under(entries, under, idx, lead, k, l);
        } else {
            assert(agree(entries[i].segments, b, 0));
            assert(rank(entries[i].segments, 0) < rank(b, 0));
        }
    }
}

/// No entry that starts with `lead` may answer where nothing behind it answers.
proof fn lemma_none_under<H>(
    entries: Seq<Entry<H>>,
    under: Seq<Entry<H>>,
    idx: Seq<int>,
    lead: SegmentModel,
    method: HttpMethod,
    path: Seq<u8>,
    j: int,
)
    requires
        lined_up(entries, under, idx, lead),
        !(lead is CatchAll),
        split_path(path) is Some,
        lead matches SegmentModel::Static(s) ==> s == split_path(path)->Some_0.0,
        lookup(under, method, split_path(path)->Some_0.1) is None,
        eligible(entries, method, path, j),
    ensures
        !starts(entries[j], lead),
{
    if starts(entries[j], lead) {
        let l = idx.index_of(j);
        assert(idx[l] == j);
        lemma_eligible_under(entries, under, idx, lead, method, path, l);
        law_fitting_route_answers(under, method, split_path(path)->Some_0.1, l);
    }
}

proof fn lemma_first_named_under<H>(
    entries: Seq<Entry<H>>,
    under: Seq<Entry<H>>,
    idx: Seq<int>,
    lead: SegmentModel,
    segments: Seq<SegmentModel>,
    d: int,
    name: Seq<u8>,
)
    requires
        lined_up(entries, under, idx, lead),
        segments.len() > 0,
        alike(segments[0], lead),
        d >= 0,
        first_named(under, segments.skip(1), d, name),
    ensures
        first_named(entries, segments, d + 1, name),
{
    let rest = segments.skip(1);
    let k = choose|k: int|
        0 <= k < under.len() && #[trigger] param_at(under, k, rest, d)
            && under[k].segments[d] == SegmentModel::Param(name) && (forall|l: int|
            0 <= l < k ==> !#[trigger] param_at(under, l, rest, d));
    let i = idx[k];
    assert(starts(entries[i], lead));
    assert(under[k] == behind_first(entries[i]));
    lemma_agree_under(entries[i].segments, segments, d);
    assert(param_at(entries, i, segments, d + 1));
    assert forall|l: int| 0 <= l < i implies !#[trigger] param_at(entries, l, segments, d + 1) by {
        if param_at(entries, l, segments, d + 1) {
            assert(alike(entries[l].segments[0], segments[0]));
            assert(starts(entries[l], lead));
            let m = idx.index_of(l);
            assert(idx[m] == l);
            if m > k {
                assert(idx[k] < idx[m]);
            }
            assert(under[m] == behind_first(entries[idx[m]]));
            lemma_agree_under(entries[l].segments, segments, d);
            assert(param_at(under, m, rest, d));
        }
    }
}

proof fn lemma_param_name<H>(entries: Seq<Entry<H>>, segments: Seq<SegmentModel>)
    requires
        param_name(entries) is Some,
    ensures
        first_named(entries, segments, 0, param_name(entries)->Some_0),
    decreases entries.len(),
{
    let front = entries.drop_last();
    let name = param_name(entries)->Some_0;
    if param_name(front) is Some {
        lemma_param_name(front, segments);
        let k = choose|k: int|
            0 <= k < front.len() && #[trigger] param_at(front, k, segments, 0)
                && front[k].segments[0] == SegmentModel::Param(name) && (forall|l: int|
                0 <= l < k ==> !#[trigger] param_at(front, l, segments, 0));
        assert(front[k] == entries[k]);
        assert(param_at(entries, k, segments, 0));
        assert forall|l: int| 0 <= l < k implies !#[trigger] param_at(entries, l, segments, 0) by {
            assert(front[l] == entries[l]);
            assert(!param_at(front, l, segments, 0));
        }
    } else {
        let k = entries.len() - 1;
        assert(param_at(entries, k, segments, 0));
        assert forall|l: int| 0 <= l < k implies !#[trigger] param_at(entries, l, segments, 0) by {
            assert(front[l] == entries[l]);
            if param_at(entries, l, segments, 0) {
                lemma_param_name_exists(front, l);
            }
        }
    }
}

proof fn lemma_param_name_exists<H>(entries: Seq<Entry<H>>, i: int)
    requires
        0 <= i < entries.len(),
        entries[i].segments.len() > 0,
        entries[i].segments[0] is Param,
    ensures
        param_name(entries) is Some,
    decreases entries.len(),
{
    if i < entries.len() - 1 {
        lemma_param_name_exists(entries.drop_last(), i);
    }
}

proof fn lemma_named_under<H>(
    entries: Seq<Entry<H>>,
    under: Seq<Entry<H>>,
    idx: Seq<int>,
    lead: SegmentModel,
    segments: Seq<SegmentModel>,
    c: int,
    inner: Seq<Pair>,
    pairs: Seq<Pair>,
)
    requires
        lined_up(entries, under, idx, lead),
        segments.len() > 0,
        alike(segments[0], lead),
        !(lead is CatchAll),
        reach(segments, c),
        c > 0,
        named_right(under, segments.skip(1), c - 1, inner),
        lead is Static ==> pairs == inner,
        lead is Param ==> pairs.len() > 0 && pairs == seq![pairs[0]] + inner && first_named(
            entries,
            segments,
            0,
            pairs[0].0,
        ),
    ensures
        named_right(entries, segments, c, pairs),
{
    let rest = segments.skip(1);
    lemma_params_before(segments, c);
    let shift = if segments[0] is Param {
        1int
    } else {
        0int
    };
    assert forall|k: int| 0 <= k < inner.len() implies #[trigger] inner[k] == pairs[k + shift] by {}
    assert forall|d: int| 0 <= d < c && (#[trigger] segments[d]) is Param implies 0
        <= params_before(segments, d) < pairs.len() && first_named(
        entries,
        segments,
        d,
        pairs[params_before(segments, d)].0,
    ) by {
        if d == 0 {
            assert(params_before(segments, 0) == 0);
        } else {
            assert(rest[d - 1] == segments[d]);
            lemma_params_before(segments, d);
            let at = params_before(rest, d - 1);
            assert(inner[at] == pairs[at + shift]);
            lemma_first_named_under(entries, under, idx, lead, segments, d - 1, inner[at].0);
        }
    }
    if c < segments.len() {
        assert(inner.len() > 0);
        assert(pairs.last() == inner.last());
    }
}

/// Where the first of a pattern's catch-alls stands.
pub proof fn lemma_reach(segments: Seq<SegmentModel>) -> (c: int)
    ensures
        reach(segments, c),
    decreases segments.len(),
{
    if segments.len() == 0 || segments[0] is CatchAll {
        0
    } else {
        let rest = segments.skip(1);
        let c = lemma_reach(rest) + 1;
        assert forall|d: int| 0 <= d < c implies !((#[trigger] segments[d]) is CatchAll) by {
            if d > 0 {
                assert(rest[d - 1] == segments[d]);
            }
        }
        if c < segments.len() {
            assert(rest[c - 1] == segments[c]);
        }
        c
    }
}

proof fn lemma_first_terminal<H>(entries: Seq<Entry<H>>, method: HttpMethod) -> (i: int)
    ensures
        first_for(terminal(entries), method) matches Some(route) ==> 0 <= i < entries.len()
            && entries[i].segments.len() == 0 && entries[i].route == route && route.method == method,
        first_for(terminal(entries), method) is Some ==> forall|j: int|
            0 <= j < i ==> !((#[trigger] entries[j]).segments.len() == 0 && entries[j].route.method
                == method),
        first_for(terminal(entries), method) is None ==> forall|j: int|
            0 <= j < entries.len() ==> !((#[trigger] entries[j]).segments.len() == 0
                && entries[j].route.method == method),
    decreases entries.len(),
{
    if entries.len() == 0 {
        0
    } else {
        let front = entries.drop_last();
        let i = lemma_first_terminal(front, method);
        let last = entries.last();
        if last.segments.len() == 0 {
            lemma_first_for_pushed(terminal(front), last.route, method);
        }
        assert forall|j: int| 0 <= j < front.len() implies front[j] == #[trigger] entries[j] by {}
        if first_for(terminal(front), method) is Some {
            i
        } else {
            entries.len() - 1
        }
    }
}

proof fn lemma_first_for_pushed<H>(
    routes: Seq<RouteDefinition<H>>,
    route: RouteDefinition<H>,
    method: HttpMethod,
)
    ensures
        first_for(routes, method) is Some ==> first_for(routes.push(route), method) == first_for(
            routes,
            method,
        ),
        first_for(routes, method) is None ==> first_for(routes.push(route), method) == (
        if route.method == method {
            Some(route)
        } else {
            None
        }),
    decreases routes.len(),
{
    let all = routes.push(route);
    if routes.len() == 0 {
        assert(first_for(all.skip(1), method) is None);
        assert(all[0] == route);
    } else {
        assert(all[0] == routes[0]);
        lemma_first_for_pushed(routes.skip(1), route, method);
        assert(all.skip(1) =~= routes.skip(1).push(route));
    }
}

/// The entry that `lookup` goes by.
proof fn lemma_best<H>(entries: Seq<Entry<H>>, method: HttpMethod, path: Seq<u8>) -> (i: int)
    requires
        lookup(entries, method, path) is Some,
    ensures
        best(entries, method, path, i),
        entries[i].route == lookup(entries, method, path)->Some_0.0,
        values(lookup(entries, method, path)->Some_0.1) == captures(entries[i].segments, path),
        forall|c: int| #[trigger]
            reach(entries[i].segments, c) ==> named_right(
                entries,
                entries[i].segments,
                c,
                lookup(entries, method, path)->Some_0.1,
            ),
    decreases path.len(),
{
    lemma_split_path(path);
    let found = lookup(entries, method, path)->Some_0;
    match split_path(path) {
        None => {
            let first = lemma_first_terminal(entries, method);
            if first_for(terminal(entries), method) is Some {
                let i = first;
                let a = entries[i].segments;
                assert forall|j: int| #[trigger] eligible(entries, method, path, j) implies preferred(
                    entries,
                    i,
                    j,
                ) by {
                    let b = entries[j].segments;
                    assert(agree(a, b, 0));
                    if b.len() > 0 {
                        assert(rank(a, 0) < rank(b, 0));
                    }
                }
                assert(values(found.1) =~= captures(a, path));
                i
            } else {
                let i = lemma_from_catch_all(entries);
                lemma_caught_best(entries, method, path, i);
                assert(without_slashes(path) =~= Seq::empty());
                assert(values(found.1) =~= captures(entries[i].segments, path));
                i
            }
        },
        Some(p) => {
            let literal = SegmentModel::Static(p.0);
            let under = under_static(entries, p.0);
            let by_literal = lookup(under, method, p.1);
            let idx = lemma_lined_up_static(entries, p.0);
            let others = under_param(entries);
            let by_param = lookup(others, method, p.1);
            let param = SegmentModel::Param(Seq::empty());
            let places = lemma_lined_up_param(entries, Seq::empty());
            if by_literal is Some {
                let k = lemma_best(under, method, p.1);
                lemma_best_under(entries, under, idx, literal, method, path, k);
                let i = idx[k];
                let a = entries[i].segments;
                assert(starts(entries[i], literal) && under[k] == behind_first(entries[i]));
                assert forall|c: int| #[trigger] reach(a, c) implies named_right(
                    entries,
                    a,
                    c,
                    found.1,
                ) by {
                    lemma_reach_under(a, c);
                    lemma_named_under(entries, under, idx, literal, a, c, found.1, found.1);
                }
                i
            } else {
                assert forall|j: int| #[trigger] eligible(entries, method, path, j) implies rank(
                    entries[j].segments,
                    0,
                ) > 0 by {
                    lemma_none_under(entries, under, idx, literal, method, path, j);
                }
                if param_name(entries) is Some && by_param is Some {
                    let k = lemma_best(others, method, p.1);
                    lemma_best_under(entries, others, places, param, method, path, k);
                    let i = places[k];
                    let a = entries[i].segments;
                    assert(starts(entries[i], param) && others[k] == behind_first(entries[i]));
                    assert(values(found.1) =~= seq![p.0] + values(by_param->Some_0.1));
                    assert forall|c: int| #[trigger] reach(a, c) implies named_right(
                        entries,
                        a,
                        c,
                        found.1,
                    ) by {
                        lemma_reach_under(a, c);
                        lemma_param_name(entries, a);
                        lemma_named_under(
                            entries,
                            others,
                            places,
                            param,
                            a,
                            c,
                            by_param->Some_0.1,
                            found.1,
                        );
                    }
                    i
                } else {
                    assert forall|j: int| #[trigger] eligible(entries, method, path, j) implies rank(
                        entries[j].segments,
                        0,
                    ) > 1 by {
                        if entries[j].segments[0] is Param {
                            lemma_param_name_exists(entries, j);
                            lemma_none_under(entries, others, places, param, method, path, j);
                        }
                    }
                    let i = lemma_from_catch_all(entries);
                    lemma_caught_best(entries, method, path, i);
                    assert(values(found.1) =~= captures(entries[i].segments, path));
                    i
                }
            }
        },
    }
}

proof fn lemma_reach_under(segments: Seq<SegmentModel>, c: int)
    requires
        segments.len() > 0,
        !(segments[0] is CatchAll),
        reach(segments, c),
    ensures
        c > 0,
        reach(segments.skip(1), c - 1),
{
    let rest = segments.skip(1);
    assert forall|d: int| 0 <= d < c - 1 implies !((#[trigger] rest[d]) is CatchAll) by {
        assert(rest[d] == segments[d + 1]);
    }
}

/// The last catch-all is best where all that may answer start with one.
proof fn lemma_caught_best<H>(entries: Seq<Entry<H>>, method: HttpMethod, path: Seq<u8>, i: int)
    requires
        0 <= i < entries.len(),
        entries[i].route.method == method,
        entries[i].segments.len() > 0,
        entries[i].segments[0] is CatchAll,
        forall|j: int|
            i < j < entries.len() ==> !((#[trigger] entries[j]).segments.len() > 0
                && entries[j].segments[0] is CatchAll),
        forall|j: int| #[trigger]
            eligible(entries, method, path, j) ==> rank(entries[j].segments, 0) > 1,
    ensures
        best(entries, method, path, i),
{
    assert forall|j: int| #[trigger] eligible(entries, method, path, j) implies preferred(
        entries,
        i,
        j,
    ) by {
        assert(entries[j].segments[0] is CatchAll);
        if j < i {
            assert(!replaces(entries[i].segments, entries[j].segments));
        }
    }
}

/// A route with captured pairs is the right answer: it is that of the entry that is
/// preferred to every other that may answer, with the values that its parameters
/// stand for in the path under the right names.
#[verifier::opaque]
pub open spec fn right_answer<H>(
    entries: Seq<Entry<H>>,
    method: HttpMethod,
    path: Seq<u8>,
    route: RouteDefinition<H>,
    pairs: Seq<Pair>,
) -> bool {
    exists|i: int| #[trigger]
        best(entries, method, path, i) && route == entries[i].route && values(pairs) == captures(
            entries[i].segments,
            path,
        ) && (forall|c: int| #[trigger]
            reach(entries[i].segments, c) ==> named_right(entries, entries[i].segments, c, pairs))
}

/// Precedence: of the entries that may answer, the one that answers is preferred
/// to every other. It has the most specific pattern, compared segment by segment
/// with a literal before a parameter and a parameter before the catch-all, and
/// came first among those with the same pattern. The captured values are what its
/// parameters stand for in the path, each under the name that was first registered
/// in its place. There is no answer only where no entry may answer.
pub proof fn law_most_specific_answers<H>(
    entries: Seq<Entry<H>>,
    method: HttpMethod,
    path: Seq<u8>,
)
    ensures
        match lookup(entries, method, path) {
            None => forall|i: int| !#[trigger] eligible(entries, method, path, i),
            Some(m) => right_answer(entries, method, path, m.0, m.1),
        },
{
    reveal(right_answer);
    match lookup(entries, method, path) {
        None => {
            assert forall|i: int| !#[trigger] eligible(entries, method, path, i) by {
                if eligible(entries, method, path, i) {
                    law_fitting_route_answers(entries, method, path, i);
                }
            }
        },
        Some(m) => {
            let i = lemma_best(entries, method, path);
            assert(best(entries, method, path, i));
        },
    }
}

/// No two entries are preferred to each other, so the order in which entries may
/// answer leaves one answer.
pub proof fn law_one_best<H>(
    entries: Seq<Entry<H>>,
    method: HttpMethod,
    path: Seq<u8>,
    i: int,
    j: int,
)
    requires
        best(entries, method, path, i),
        best(entries, method, path, j),
    ensures
        i == j,
{
    assert(preferred(entries, i, j) && preferred(entries, j, i));
    let a = entries[i].segments;
    let b = entries[j].segments;
    if more_specific(a, b) {
        let d = choose|d: int| #[trigger] agree(a, b, d) && rank(a, d) < rank(b, d);
        lemma_differ(a, b, d);
    }
    if more_specific(b, a) {
        let d = choose|d: int| #[trigger] agree(b, a, d) && rank(b, d) < rank(a, d);
        lemma_differ(b, a, d);
    }
}

proof fn lemma_differ(a: Seq<SegmentModel>, b: Seq<SegmentModel>, d: int)
    requires
        agree(a, b, d),
        rank(a, d) < rank(b, d),
    ensures
        !more_specific(b, a),
        !(a.len() == b.len() && agree(a, b, a.len() as int)),
        !(a.len() == b.len() && agree(b, a, a.len() as int)),
{
    if more_specific(b, a) {
        let e = choose|e: int| #[trigger] agree(b, a, e) && rank(b, e) < rank(a, e);
        if e < d {
            assert(alike(a[e], b[e]));
        } else if d < e {
            assert(alike(b[d], a[d]));
        }
    }
    if a.len() == b.len() && agree(a, b, a.len() as int) {
        assert(alike(a[d], b[d]));
    }
    if a.len() == b.len() && agree(b, a, a.len() as int) {
        assert(alike(b[d], a[d]));
    }
}

/// A parameter goes before the catch-all and a literal before both: where an entry
/// that may answer starts with a parameter, what answers does not start with the
/// catch-all, and where one starts with a literal, what answers starts with that
/// literal.
pub proof fn law_first_segment_preferred<H>(
    entries: Seq<Entry<H>>,
    method: HttpMethod,
    path: Seq<u8>,
    j: int,
)
    requires
        eligible(entries, method, path, j),
        entries[j].segments.len() > 0,
        !(entries[j].segments[0] is CatchAll),
    ensures
        lookup(entries, method, path) is Some,
        exists|i: int| #[trigger]
            best(entries, method, path, i) && entries[i].route == lookup(
                entries,
                method,
                path,
            )->Some_0.0 && entries[i].segments.len() > 0 && !(entries[i].segments[0] is CatchAll)
                && (entries[j].segments[0] is Static ==> entries[i].segments[0]
                == entries[j].segments[0]),
{
    law_most_specific_answers(entries, method, path);
    law_fitting_route_answers(entries, method, path, j);
    reveal(right_answer);
    let i = choose|i: int| #[trigger]
        best(entries, method, path, i) && entries[i].route == lookup(
            entries,
            method,
            path,
        )->Some_0.0;
    lemma_split_path(path);
    let a = entries[i].segments;
    let b = entries[j].segments;
    assert(preferred(entries, i, j));
    if more_specific(a, b) {
        let d = choose|d: int| #[trigger] agree(a, b, d) && rank(a, d) < rank(b, d);
        if d > 0 {
            assert(alike(a[0], b[0]));
        }
    } else if i != j {
        assert(alike(a[0], b[0]));
    }
}

/// What a match captures stands in order, the name in front of the value, and a
/// segment stands for one of its own kind.
pub proof fn law_captured_texts(pairs: Seq<(&str, &str)>, i: int, segment: Segment)
    requires
        0 <= i < pairs.len(),
    ensures
        str_pairs(pairs).len() == pairs.len(),
        str_pairs(pairs)[i].0 == pairs[i].0.spec_bytes(),
        str_pairs(pairs)[i].1 == pairs[i].1.spec_bytes(),
        segment matches Segment::Static(s) ==> segment@ == SegmentModel::Static(encode_utf8(s@)),
        segment matches Segment::Param(s) ==> segment@ == SegmentModel::Param(encode_utf8(s@)),
        segment is CatchAll ==> segment@ is CatchAll,
{
}

} // verus!
