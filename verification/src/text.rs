//! Byte strings and UTF-8 text.

use crate::outside::{
    find_byte, find_bytes, occurs_at, str_from_utf8, strip_back, strip_front, stripped, trim,
    valid_prefix_end, white_space,
};
use vstd::prelude::*;
use vstd::slice::slice_subrange;
use vstd::string::StringSliceAdditionalSpecFns;
use vstd::utf8::*;

verus! {

/// The ASCII lower-case form of a byte.
pub open spec fn lower(b: u8) -> u8 {
    if 65 <= b <= 90 {
        (b + 32) as u8
    } else {
        b
    }
}

/// Every byte in its ASCII lower-case form.
pub open spec fn lower_all(s: Seq<u8>) -> Seq<u8> {
    s.map_values(|b: u8| lower(b))
}

/// Equality up to the case of ASCII letters.
pub open spec fn same_ignoring_case(a: Seq<u8>, b: Seq<u8>) -> bool {
    lower_all(a) == lower_all(b)
}

pub fn lower_byte(b: u8) -> (r: u8)
    ensures
        r == lower(b),
{
    if 65 <= b && b <= 90 {
        b + 32
    } else {
        b
    }
}

/// Byte-wise equality.
pub fn bytes_equal(a: &[u8], b: &[u8]) -> (r: bool)
    ensures
        r == (a@ == b@),
{
    if a.len() != b.len() {
        return false;
    }
    for i in 0..a.len()
        invariant
            a@.len() == b@.len(),
            forall|j: int| 0 <= j < i ==> a@[j] == b@[j],
    {
        if a[i] != b[i] {
            return false;
        }
    }
    assert(a@ =~= b@);
    true
}

/// Equality of two byte strings up to the case of ASCII letters.
pub fn equal_ignoring_case(a: &[u8], b: &[u8]) -> (r: bool)
    ensures
        r == same_ignoring_case(a@, b@),
{
    if a.len() != b.len() {
        assert(lower_all(a@).len() != lower_all(b@).len());
        return false;
    }
    for i in 0..a.len()
        invariant
            a@.len() == b@.len(),
            forall|j: int| 0 <= j < i ==> lower(a@[j]) == lower(b@[j]),
    {
        if lower_byte(a[i]) != lower_byte(b[i]) {
            assert(lower_all(a@)[i as int] != lower_all(b@)[i as int]);
            return false;
        }
    }
    assert(lower_all(a@) =~= lower_all(b@));
    true
}

/// The index of the first `b` in `s`, or the length of `s` where there is none.
pub open spec fn position(s: Seq<u8>, b: u8) -> int
    decreases s.len(),
{
    if s.len() == 0 {
        0
    } else if s[0] == b {
        0
    } else {
        1 + position(s.skip(1), b)
    }
}

/// `position` is the least index at which `b` stands.
pub proof fn lemma_position(s: Seq<u8>, b: u8)
    ensures
        0 <= position(s, b) <= s.len(),
        position(s, b) < s.len() ==> s[position(s, b)] == b,
        forall|j: int| 0 <= j < position(s, b) ==> s[j] != b,
    decreases s.len(),
{
    if s.len() > 0 && s[0] != b {
        lemma_position(s.skip(1), b);
        assert forall|j: int| 0 <= j < position(s, b) implies s[j] != b by {
            if j > 0 {
                assert(s.skip(1)[j - 1] != b);
            }
        }
    }
}

/// The least index at which `b` stands is `position`.
pub proof fn lemma_position_is(s: Seq<u8>, b: u8, i: int)
    requires
        0 <= i <= s.len(),
        i < s.len() ==> s[i] == b,
        forall|j: int| 0 <= j < i ==> s[j] != b,
    ensures
        position(s, b) == i,
{
    lemma_position(s, b);
}

/// The index of the first `b` in `s`, or the length of `s` where there is none.
pub fn position_of(s: &[u8], b: u8) -> (r: usize)
    ensures
        r == position(s@, b),
        r <= s@.len(),
{
    proof {
        lemma_position(s@, b);
    }
    match find_byte(b, s) {
        Some(i) => i,
        None => s.len(),
    }
}

/// What stands behind index `end`, at which a delimiter stands or `s` ends.
pub open spec fn rest_after(s: Seq<u8>, end: int) -> Seq<u8> {
    if end < s.len() {
        s.skip(end + 1)
    } else {
        Seq::empty()
    }
}

/// What stands behind index `end`, at which a delimiter stands or `s` ends.
pub fn after(s: &[u8], end: usize) -> (r: &[u8])
    requires
        end <= s@.len(),
    ensures
        r@ == rest_after(s@, end as int),
        s@.len() > 0 ==> r@.len() < s@.len(),
{
    let n: usize = s.len();
    let r = if end < n {
        slice_subrange(s, end + 1, n)
    } else {
        slice_subrange(s, n, n)
    };
    assert(r@ =~= rest_after(s@, end as int));
    r
}

/// A space or a tab.
pub open spec fn blank(b: u8) -> bool {
    b == 32 || b == 9
}

/// `s` without the spaces and tabs that it starts with.
pub open spec fn trim_start(s: Seq<u8>) -> Seq<u8>
    decreases s.len(),
{
    if s.len() > 0 && blank(s[0]) {
        trim_start(s.skip(1))
    } else {
        s
    }
}

/// `s` without the spaces and tabs (and, where `cr` holds, the carriage
/// returns) that it ends with.
pub open spec fn trim_end(s: Seq<u8>, cr: bool) -> Seq<u8>
    decreases s.len(),
{
    if s.len() > 0 && (blank(s.last()) || cr && s.last() == 13) {
        trim_end(s.drop_last(), cr)
    } else {
        s
    }
}

/// `s` without surrounding spaces and tabs (and, where `cr` holds, without
/// carriage returns at its end).
pub open spec fn trimmed(s: Seq<u8>, cr: bool) -> Seq<u8> {
    trim_end(trim_start(s), cr)
}

/// Strips spaces and tabs from both ends (and, where `cr` holds, carriage
/// returns from the end).
pub fn trim_ascii(s: &[u8], cr: bool) -> (r: &[u8])
    ensures
        r@ == trimmed(s@, cr),
        r@.len() <= s@.len(),
{
    let n: usize = s.len();
    let mut from: usize = 0;
    assert(s@.skip(0) =~= s@);
    while from < n && (s[from] == 32 || s[from] == 9)
        invariant
            n == s@.len(),
            from <= n,
            trim_start(s@) == trim_start(s@.skip(from as int)),
        decreases n - from,
    {
        assert(s@.skip(from as int).skip(1) =~= s@.skip(from + 1));
        from += 1;
    }
    assert(s@.skip(from as int) =~= s@.subrange(from as int, n as int));
    let mut to: usize = n;
    while to > from && (s[to - 1] == 32 || s[to - 1] == 9 || cr && s[to - 1] == 13)
        invariant
            n == s@.len(),
            from <= to <= n,
            trim_end(s@.subrange(from as int, n as int), cr) == trim_end(
                s@.subrange(from as int, to as int),
                cr,
            ),
        decreases to,
    {
        assert(s@.subrange(from as int, to as int).drop_last() =~= s@.subrange(
            from as int,
            to - 1,
        ));
        to -= 1;
    }
    slice_subrange(s, from, to)
}

/// Lower-casing ASCII letters keeps text valid.
pub proof fn lemma_lower_valid(s: Seq<u8>)
    requires
        valid_utf8(s),
    ensures
        valid_utf8(lower_all(s)),
    decreases s.len(),
{
    if s.len() > 0 {
        let l = lower_all(s);
        assert(length_of_first_scalar(l) == length_of_first_scalar(s));
        assert(valid_first_scalar(l));
        lemma_lower_valid(pop_first_scalar(s));
        assert(pop_first_scalar(l) =~= lower_all(pop_first_scalar(s)));
    }
}

/// Bytes below 128 are valid UTF-8.
pub proof fn lemma_ascii_valid(s: Seq<u8>)
    requires
        forall|i: int| 0 <= i < s.len() ==> #[trigger] s[i] < 128,
    ensures
        valid_utf8(s),
{
    assert(s.subrange(0, 0) =~= Seq::<u8>::empty());
    partial_valid_utf8_extend_ascii_block(s, 0, s.len() as int);
    assert(s.subrange(0, s.len() as int) =~= s);
}

/// Lower-casing twice is lower-casing once.
pub proof fn lemma_lower_twice(s: Seq<u8>)
    ensures
        lower_all(lower_all(s)) == lower_all(s),
{
    assert(lower_all(lower_all(s)) =~= lower_all(s));
}

/// Text is determined by its UTF-8 form.
pub proof fn lemma_utf8_injective(a: Seq<char>, b: Seq<char>)
    requires
        encode_utf8(a) == encode_utf8(b),
    ensures
        a == b,
{
    encode_utf8_decode_utf8(a);
    encode_utf8_decode_utf8(b);
}

/// Appends the UTF-8 form of `s`.
pub fn push_text(buf: &mut Vec<u8>, s: &str)
    ensures
        final(buf)@ == old(buf)@ + s.spec_bytes(),
        valid_utf8(old(buf)@) ==> valid_utf8(final(buf)@),
{
    let ghost start = buf@;
    buf.extend_from_slice(s.as_bytes());
    assert(buf@ =~= start + s.spec_bytes());
    proof {
        encode_utf8_valid_utf8(s@);
        if valid_utf8(start) {
            valid_utf8_concat(start, s.spec_bytes());
        }
    }
}

/// The UTF-8 forms of the strings in `v`.
pub open spec fn utf8_list(v: Seq<String>) -> Seq<Seq<u8>> {
    v.map_values(|s: String| encode_utf8(s@))
}

/// Equality of two strings.
pub fn str_equal(a: &str, b: &str) -> (r: bool)
    ensures
        r == (a@ == b@),
        r == (a.spec_bytes() == b.spec_bytes()),
{
    let r = bytes_equal(a.as_bytes(), b.as_bytes());
    proof {
        if r {
            lemma_utf8_injective(a@, b@);
        }
    }
    r
}

/// The text that `s` encodes without surrounding white space, encoded again.
pub open spec fn strip_text(s: Seq<u8>) -> Seq<u8> {
    encode_utf8(stripped(decode_utf8(s)))
}

/// `s` without surrounding white space.
pub fn strip(s: &str) -> (r: &str)
    ensures
        r@ == stripped(s@),
        r.spec_bytes() == strip_text(s.spec_bytes()),
{
    proof {
        encode_utf8_decode_utf8(s@);
    }
    trim(s)
}

/// The index at which `needle` first stands in `s`.
pub open spec fn first_at(s: Seq<u8>, needle: Seq<u8>) -> Option<int>
    decreases s.len(),
{
    if needle.is_prefix_of(s) {
        Some(0)
    } else if s.len() == 0 {
        None
    } else {
        match first_at(s.skip(1), needle) {
            Some(i) => Some(i + 1),
            None => None,
        }
    }
}

/// `first_at` is the least index at which `needle` occurs.
pub proof fn lemma_first_at(s: Seq<u8>, needle: Seq<u8>)
    ensures
        match first_at(s, needle) {
            Some(i) => occurs_at(s, needle, i) && forall|j: int|
                0 <= j < i ==> !occurs_at(s, needle, j),
            None => forall|j: int| !occurs_at(s, needle, j),
        },
    decreases s.len(),
{
    assert(needle.is_prefix_of(s) <==> occurs_at(s, needle, 0));
    if !needle.is_prefix_of(s) && s.len() > 0 {
        let t = s.skip(1);
        lemma_first_at(t, needle);
        assert forall|j: int| 1 <= j implies occurs_at(s, needle, j) == occurs_at(
            t,
            needle,
            j - 1,
        ) by {
            if j + needle.len() <= s.len() {
                assert(s.subrange(j, j + needle.len()) =~= t.subrange(
                    j - 1,
                    j - 1 + needle.len(),
                ));
            }
        }
    }
}

/// The least index at which `needle` occurs is `first_at`.
pub proof fn lemma_first_is(s: Seq<u8>, needle: Seq<u8>, i: int)
    requires
        occurs_at(s, needle, i),
        forall|j: int| 0 <= j < i ==> !occurs_at(s, needle, j),
    ensures
        first_at(s, needle) == Some(i),
{
    lemma_first_at(s, needle);
}

/// The index at which `needle` first stands in `s`.
pub fn first_index(s: &[u8], needle: &[u8]) -> (r: Option<usize>)
    ensures
        match r {
            Some(i) => first_at(s@, needle@) == Some(i as int) && i + needle@.len() <= s@.len(),
            None => first_at(s@, needle@) is None,
        },
{
    proof {
        lemma_first_at(s@, needle@);
    }
    find_bytes(s, needle)
}

/// Whether `needle` stands somewhere in `s`.
pub open spec fn contains(s: Seq<u8>, needle: Seq<u8>) -> bool {
    exists|i: int| occurs_at(s, needle, i)
}

/// Whether `needle` stands somewhere in `s`.
pub fn contains_bytes(s: &[u8], needle: &[u8]) -> (r: bool)
    ensures
        r == contains(s@, needle@),
{
    find_bytes(s, needle).is_some()
}

/// Whether `s` starts with `prefix`.
pub fn starts_with(s: &[u8], prefix: &[u8]) -> (r: bool)
    ensures
        r == prefix@.is_prefix_of(s@),
{
    if s.len() < prefix.len() {
        return false;
    }
    bytes_equal(slice_subrange(s, 0, prefix.len()), prefix)
}

/// A byte below 128 stands for a character of its own.
pub proof fn lemma_boundary(s: Seq<u8>, i: int)
    requires
        valid_utf8(s),
        0 <= i < s.len(),
        s[i] < 128,
    ensures
        is_char_boundary(s, i),
        is_char_boundary(s, i + 1),
        valid_utf8(s.take(i)),
        valid_utf8(s.skip(i)),
        valid_utf8(s.skip(i + 1)),
{
    is_char_boundary_iff_not_is_continuation_byte(s, i);
    valid_utf8_split(s, i);
    assert(s.take(i) =~= s.subrange(0, i));
    let t = s.subrange(i, s.len() as int);
    assert(s.skip(i) =~= t);
    assert(t[0] < 128);
    assert(length_of_first_scalar(t) == 1);
    assert(valid_utf8(pop_first_scalar(t)));
    assert(pop_first_scalar(t) =~= s.skip(i + 1));
    lemma_boundary_from_rest(s, i + 1);
}

/// Where what follows an index is valid on its own, the index is a boundary.
proof fn lemma_boundary_from_rest(s: Seq<u8>, i: int)
    requires
        valid_utf8(s),
        0 <= i <= s.len(),
        valid_utf8(s.skip(i)),
    ensures
        is_char_boundary(s, i),
{
    if i == s.len() {
        is_char_boundary_start_end_of_seq(s);
    } else {
        let t = s.skip(i);
        is_char_boundary_start_end_of_seq(t);
        is_char_boundary_iff_not_is_continuation_byte(t, 0);
        is_char_boundary_iff_not_is_continuation_byte(s, i);
        assert(t[0] == s[i]);
    }
}

/// What stands before the index `i`, at which an ASCII character stands, and
/// what stands behind it.
pub fn cut(s: &str, i: usize) -> (r: (&str, &str))
    requires
        i < s.spec_bytes().len(),
        s.spec_bytes()[i as int] < 128,
    ensures
        r.0.spec_bytes() == s.spec_bytes().take(i as int),
        r.1.spec_bytes() == s.spec_bytes().skip(i + 1),
{
    let ghost b = s.spec_bytes();
    proof {
        encode_utf8_valid_utf8(s@);
        lemma_boundary(b, i as int);
    }
    let n: usize = s.as_bytes().len();
    assert(n == b.len());
    let left = s.split_at(i).0;
    let right = s.split_at(i + 1).1;
    assert(b.subrange(0, i as int) =~= b.take(i as int));
    assert(b.subrange(i + 1, b.len() as int) =~= b.skip(i + 1));
    (left, right)
}

/// `s` without the prefix `prefix`, where it starts with it. The last byte of
/// `prefix` is an ASCII character.
pub fn without_prefix<'a>(s: &'a str, prefix: &str) -> (r: Option<&'a str>)
    requires
        prefix.spec_bytes().len() > 0,
        prefix.spec_bytes().last() < 128,
    ensures
        match r {
            Some(t) => prefix.spec_bytes().is_prefix_of(s.spec_bytes()) && t.spec_bytes()
                == s.spec_bytes().skip(prefix.spec_bytes().len() as int),
            None => !prefix.spec_bytes().is_prefix_of(s.spec_bytes()),
        },
{
    if starts_with(s.as_bytes(), prefix.as_bytes()) {
        let n: usize = prefix.as_bytes().len();
        proof {
            assert(s.spec_bytes()[n - 1] == prefix.spec_bytes()[n - 1]);
        }
        Some(cut(s, n - 1).1)
    } else {
        None
    }
}

/// The text that UTF-8 bytes hold.
pub fn text_of(buf: Vec<u8>) -> (r: String)
    requires
        valid_utf8(buf@),
    ensures
        encode_utf8(r@) == buf@,
{
    match str_from_utf8(buf.as_slice()) {
        Ok(s) => s.to_owned(),
        Err(_) => String::new(),
    }
}

/// Concatenation is associative.
pub proof fn lemma_seven(
    s: Seq<u8>,
    a: Seq<u8>,
    b: Seq<u8>,
    c: Seq<u8>,
    d: Seq<u8>,
    e: Seq<u8>,
    f: Seq<u8>,
    g: Seq<u8>,
)
    ensures
        s + a + b + c + d + e + f + g == s + (a + b + c + d + e + f + g),
{
    assert(s + a + b == s + (a + b));
    assert(s + (a + b) + c == s + (a + b + c));
    assert(s + (a + b + c) + d == s + (a + b + c + d));
    assert(s + (a + b + c + d) + e == s + (a + b + c + d + e));
    assert(s + (a + b + c + d + e) + f == s + (a + b + c + d + e + f));
    assert(s + (a + b + c + d + e + f) + g == s + (a + b + c + d + e + f + g));
}

/// `s` with its ASCII letters in lower case.
pub fn lower_text(s: &str) -> (r: String)
    ensures
        encode_utf8(r@) == lower_all(s.spec_bytes()),
{
    let b = s.as_bytes();
    let mut out: Vec<u8> = Vec::new();
    for i in 0..b.len()
        invariant
            b@ == s.spec_bytes(),
            out@ == lower_all(b@.take(i as int)),
    {
        out.push(lower_byte(b[i]));
        assert(out@ =~= lower_all(b@.take(i + 1)));
    }
    assert(b@.take(b@.len() as int) =~= b@);
    proof {
        encode_utf8_valid_utf8(s@);
        lemma_lower_valid(b@);
    }
    text_of(out)
}

/// The texts in `list` with `separator` between each two.
pub open spec fn joined(list: Seq<Seq<u8>>, separator: Seq<u8>) -> Seq<u8>
    decreases list.len(),
{
    if list.len() == 0 {
        Seq::empty()
    } else if list.len() == 1 {
        list[0]
    } else {
        joined(list.drop_last(), separator) + separator + list.last()
    }
}

/// The texts in `list` with `separator` between each two.
pub fn join(list: &Vec<String>, separator: &str) -> (r: String)
    ensures
        encode_utf8(r@) == joined(utf8_list(list@), separator.spec_bytes()),
{
    let ghost all = utf8_list(list@);
    let mut out: Vec<u8> = Vec::new();
    for i in 0..list.len()
        invariant
            all == utf8_list(list@),
            valid_utf8(out@),
            out@ == joined(all.take(i as int), separator.spec_bytes()),
    {
        let ghost so_far = out@;
        if i > 0 {
            push_text(&mut out, separator);
        }
        push_text(&mut out, list[i].as_str());
        assert(all.take(i + 1).drop_last() =~= all.take(i as int));
        assert(all.take(i + 1).last() == encode_utf8(list@[i as int]@));
        if i == 0 {
            assert(out@ =~= all.take(1)[0]);
        } else {
            assert(out@ =~= joined(all.take(i + 1), separator.spec_bytes()));
        }
    }
    assert(all.take(list@.len() as int) =~= all);
    text_of(out)
}

/// A byte below 128 stands for the character of its number.
pub proof fn lemma_decode_one(b: u8)
    requires
        b < 128,
    ensures
        decode_utf8(seq![b]) == seq![b as char],
{
    let c = seq![b as char];
    assert(is_ascii_chars(c));
    is_ascii_chars_encode_utf8(c);
    assert(encode_utf8(c) =~= seq![b]);
    encode_utf8_decode_utf8(c);
}

/// White space in front of a text makes no difference to what is left without
/// any.
pub proof fn lemma_strip_blank(s: Seq<u8>)
    requires
        valid_utf8(s),
    ensures
        valid_utf8(seq![32u8] + s),
        strip_text(seq![32u8] + s) == strip_text(s),
{
    let t = seq![32u8] + s;
    lemma_ascii_valid(seq![32u8]);
    valid_utf8_concat(seq![32u8], s);
    lemma_boundary(t, 0);
    decode_utf8_split(t, 1);
    assert(t.subrange(0, 1) =~= seq![32u8]);
    assert(t.subrange(1, t.len() as int) =~= s);
    lemma_decode_one(32);
    let d = decode_utf8(t);
    assert(d =~= seq![32u8 as char] + decode_utf8(s));
    assert(d.skip(1) =~= decode_utf8(s));
    assert(white_space(d[0]));
}

/// A text between two printed ASCII characters has no white space around it.
pub proof fn lemma_strip_same(s: Seq<u8>)
    requires
        valid_utf8(s),
        s.len() > 0,
        33 <= s[0] <= 126,
        33 <= s.last() <= 126,
    ensures
        strip_text(s) == s,
{
    let n = s.len() as int;
    lemma_boundary(s, 0);
    lemma_boundary(s, n - 1);
    decode_utf8_split(s, 1);
    decode_utf8_split(s, n - 1);
    assert(s.subrange(0, 1) =~= seq![s[0]]);
    assert(s.subrange(n - 1, n) =~= seq![s.last()]);
    lemma_decode_one(s[0]);
    lemma_decode_one(s.last());
    let d = decode_utf8(s);
    assert(d[0] == s[0] as char);
    assert(d.last() == s.last() as char);
    assert(!white_space(d[0]));
    assert(!white_space(d.last()));
    assert(strip_front(d) == d);
    assert(strip_back(d) == d);
    decode_utf8_encode_utf8(s);
}

/// The index up to which bytes are valid UTF-8: the largest one before which they
/// are so on their own.
pub open spec fn utf8_end(s: Seq<u8>) -> nat {
    choose|n: nat| valid_prefix_end(s, n)
}

/// There is only one index up to which bytes are valid UTF-8.
pub proof fn lemma_utf8_end_is(s: Seq<u8>, n: nat)
    requires
        valid_prefix_end(s, n),
    ensures
        utf8_end(s) == n,
{
    let m = utf8_end(s);
    assert(valid_prefix_end(s, m));
    if n < m {
        assert(!valid_utf8(s.take(m as int)));
    } else if m < n {
        assert(!valid_utf8(s.take(n as int)));
    }
}

proof fn lemma_utf8_end_exists(s: Seq<u8>, n: nat)
    requires
        n <= s.len(),
        forall|m: int| n < m <= s.len() ==> !valid_utf8(#[trigger] s.take(m)),
    ensures
        exists|k: nat| valid_prefix_end(s, k),
    decreases n,
{
    if valid_utf8(s.take(n as int)) {
        assert(valid_prefix_end(s, n));
    } else {
        if n == 0 {
            assert(s.take(0) =~= Seq::<u8>::empty());
        }
        lemma_utf8_end_exists(s, (n - 1) as nat);
    }
}

/// All bytes have an index up to which they are valid UTF-8; it is their number
/// exactly where all of them are.
pub proof fn law_utf8_end(s: Seq<u8>)
    ensures
        valid_prefix_end(s, utf8_end(s)),
        utf8_end(s) == s.len() <==> valid_utf8(s),
{
    lemma_utf8_end_exists(s, s.len());
    assert(s.take(s.len() as int) =~= s);
    if valid_utf8(s) {
        assert(valid_prefix_end(s, s.len()));
        lemma_utf8_end_is(s, s.len());
    }
}

// ── Laws ───────────────────────────────────────────────────────────────────

/// Two texts are the same up to case where they are equally long and in every
/// place have the same byte, or the two forms of one ASCII letter.
pub proof fn law_same_ignoring_case(a: Seq<u8>, b: Seq<u8>)
    ensures
        same_ignoring_case(a, b) <==> a.len() == b.len() && (forall|i: int|
            #![trigger a[i]]
            #![trigger b[i]]
            0 <= i < a.len() ==> a[i] == b[i] || 65 <= a[i] <= 90 && b[i] == a[i] + 32 || 65
                <= b[i] <= 90 && a[i] == b[i] + 32),
{
    let x = lower_all(a);
    let y = lower_all(b);
    if same_ignoring_case(a, b) {
        assert(x.len() == a.len() && y.len() == b.len());
        assert forall|i: int|
            #![trigger a[i]]
            #![trigger b[i]]
            0 <= i < a.len() implies a[i] == b[i] || 65 <= a[i] <= 90 && b[i] == a[i] + 32 || 65
            <= b[i] <= 90 && a[i] == b[i] + 32 by {
            assert(x[i] == lower(a[i]) && y[i] == lower(b[i]));
        }
    } else if a.len() == b.len() && (forall|i: int|
        #![trigger a[i]]
        #![trigger b[i]]
        0 <= i < a.len() ==> a[i] == b[i] || 65 <= a[i] <= 90 && b[i] == a[i] + 32 || 65 <= b[i]
            <= 90 && a[i] == b[i] + 32) {
        assert forall|i: int| 0 <= i < x.len() implies x[i] == y[i] by {
            assert(a[i] == b[i] || 65 <= a[i] <= 90 && b[i] == a[i] + 32 || 65 <= b[i] <= 90
                && a[i] == b[i] + 32);
        }
        assert(x =~= y);
    }
}

/// A text in lower case is as long as it was, is the same up to case, and has no
/// upper-case ASCII letter.
pub proof fn law_lower_all(s: Seq<u8>)
    ensures
        lower_all(s).len() == s.len(),
        forall|i: int|
            0 <= i < s.len() ==> (#[trigger] lower_all(s)[i]) == (if 65 <= s[i] <= 90 {
                (s[i] + 32) as u8
            } else {
                s[i]
            }),
{
}

/// What trimming leaves is what stands between the first and the last byte that
/// are not trimmed: spaces and tabs are trimmed at both ends, and carriage returns
/// at the back where `cr` holds.
pub proof fn law_trimmed(s: Seq<u8>, cr: bool)
    ensures
        exists|i: int, j: int|
            0 <= i <= j <= s.len() && trimmed(s, cr) == #[trigger] s.subrange(i, j) && (forall|k: int|
                0 <= k < i ==> #[trigger] s[k] == 32 || s[k] == 9) && (forall|k: int|
                j <= k < s.len() ==> #[trigger] s[k] == 32 || s[k] == 9 || cr && s[k] == 13) && (i < j
                ==> s[i] != 32 && s[i] != 9 && s[j - 1] != 32 && s[j - 1] != 9 && (cr ==> s[j - 1]
                != 13)) && (i == j && i < s.len() ==> cr && s[i] == 13),
{
    let i = lemma_trim_start(s);
    let t = trim_start(s);
    let n = lemma_trim_end(t, cr);
    let j = i + n;
    assert(t.take(n) =~= s.subrange(i, j));
    assert forall|k: int| j <= k < s.len() implies #[trigger] s[k] == 32 || s[k] == 9 || cr && s[k]
        == 13 by {
        assert(t[k - i] == s[k]);
    }
    if i < j {
        assert(t[n - 1] == s[j - 1]);
        assert(t[0] == s[i]);
    } else if i < s.len() {
        assert(t[0] == s[i]);
    }
    assert(trimmed(s, cr) == s.subrange(i, j));
}

/// How many spaces and tabs a text starts with.
pub proof fn lemma_trim_start(s: Seq<u8>) -> (i: int)
    ensures
        0 <= i <= s.len(),
        trim_start(s) == s.skip(i),
        forall|k: int| 0 <= k < i ==> #[trigger] s[k] == 32 || s[k] == 9,
        i < s.len() ==> s[i] != 32 && s[i] != 9,
    decreases s.len(),
{
    if s.len() > 0 && blank(s[0]) {
        let rest = s.skip(1);
        let i = lemma_trim_start(rest) + 1;
        assert(rest.skip(i - 1) =~= s.skip(i));
        assert forall|k: int| 0 <= k < i implies #[trigger] s[k] == 32 || s[k] == 9 by {
            if k > 0 {
                assert(rest[k - 1] == s[k]);
            }
        }
        if i < s.len() {
            assert(rest[i - 1] == s[i]);
        }
        i
    } else {
        assert(s.skip(0) =~= s);
        0
    }
}

/// How much of a text stands before what is trimmed at its end.
pub proof fn lemma_trim_end(s: Seq<u8>, cr: bool) -> (j: int)
    ensures
        0 <= j <= s.len(),
        trim_end(s, cr) == s.take(j),
        forall|k: int| j <= k < s.len() ==> #[trigger] s[k] == 32 || s[k] == 9 || cr && s[k] == 13,
        j > 0 ==> s[j - 1] != 32 && s[j - 1] != 9 && (cr ==> s[j - 1] != 13),
    decreases s.len(),
{
    if s.len() > 0 && (blank(s.last()) || cr && s.last() == 13) {
        let front = s.drop_last();
        let j = lemma_trim_end(front, cr);
        assert(front.take(j) =~= s.take(j));
        assert forall|k: int| j <= k < s.len() implies #[trigger] s[k] == 32 || s[k] == 9 || cr
            && s[k] == 13 by {
            if k < front.len() {
                assert(front[k] == s[k]);
            }
        }
        if j > 0 {
            assert(front[j - 1] == s[j - 1]);
        }
        j
    } else {
        assert(s.take(s.len() as int) =~= s);
        s.len() as int
    }
}

/// A text holds whatever it has between a front and a back, and nothing else.
pub proof fn law_contains(front: Seq<u8>, needle: Seq<u8>, back: Seq<u8>, s: Seq<u8>)
    ensures
        contains(front + needle + back, needle),
        contains(s, needle) ==> exists|i: int|
            0 <= i <= s.len() - needle.len() && s == #[trigger] s.take(i) + needle + s.skip(
                i + needle.len(),
            ),
{
    let whole = front + needle + back;
    let at = front.len() as int;
    assert(whole.subrange(at, at + needle.len()) =~= needle);
    assert(occurs_at(whole, needle, at));
    if contains(s, needle) {
        let i = choose|i: int| occurs_at(s, needle, i);
        assert(s.subrange(i, i + needle.len()) == needle);
        assert(s =~= s.take(i) + s.subrange(i, i + needle.len()) + s.skip(i + needle.len()));
        assert(s == s.take(i) + needle + s.skip(i + needle.len()));
    }
}

/// Nothing joined is nothing, one text joined is that text, and the joined texts
/// of two lists that both hold something have one separator between them.
pub proof fn law_joined(a: Seq<Seq<u8>>, b: Seq<Seq<u8>>, one: Seq<u8>, separator: Seq<u8>)
    requires
        a.len() > 0,
        b.len() > 0,
    ensures
        joined(Seq::empty(), separator) == Seq::<u8>::empty(),
        joined(seq![one], separator) == one,
        joined(a + b, separator) == joined(a, separator) + separator + joined(b, separator),
    decreases b.len(),
{
    let all = a + b;
    assert(all.last() == b.last());
    if b.len() == 1 {
        assert(all.drop_last() =~= a);
    } else {
        let front = b.drop_last();
        law_joined(a, front, one, separator);
        assert(all.drop_last() =~= a + front);
        let x = joined(a, separator) + separator;
        let y = joined(front, separator);
        assert(joined(all, separator) =~= x + joined(b, separator)) by {
            assert((x + y) + separator + b.last() =~= x + (y + separator + b.last()));
        }
    }
}

/// What stands behind the first delimiter: all of it, and nothing where there is
/// no delimiter.
pub proof fn law_rest_after(front: Seq<u8>, delimiter: u8, back: Seq<u8>)
    requires
        forall|i: int| 0 <= i < front.len() ==> #[trigger] front[i] != delimiter,
    ensures
        position(front + seq![delimiter] + back, delimiter) == front.len(),
        (front + seq![delimiter] + back).take(front.len() as int) == front,
        rest_after(front + seq![delimiter] + back, front.len() as int) == back,
        position(front, delimiter) == front.len(),
        rest_after(front, front.len() as int) == Seq::<u8>::empty(),
{
    let s = front + seq![delimiter] + back;
    lemma_position_is(s, delimiter, front.len() as int);
    lemma_position_is(front, delimiter, front.len() as int);
    assert(s.take(front.len() as int) =~= front);
    assert(s.skip(front.len() as int + 1) =~= back);
}

/// The place at which a text first stands in another is where what is in front of
/// it ends, unless it already starts in there.
pub proof fn law_first_at(front: Seq<u8>, needle: Seq<u8>, back: Seq<u8>)
    requires
        forall|j: int|
            0 <= j < front.len() ==> !#[trigger] occurs_at(front + needle + back, needle, j),
    ensures
        first_at(front + needle + back, needle) == Some(front.len() as int),
        contains(front + needle + back, needle),
{
    let s = front + needle + back;
    let n = front.len() as int;
    assert(s.subrange(n, n + needle.len()) =~= needle);
    assert(occurs_at(s, needle, n));
    lemma_first_is(s, needle, n);
}

/// Spaces in front of a text are stripped, and a text between two printed ASCII
/// characters is left as it is.
pub proof fn law_strip(s: Seq<u8>)
    requires
        valid_utf8(s),
    ensures
        strip_text(seq![32u8] + s) == strip_text(s),
        s.len() > 0 && 33 <= s[0] <= 126 && 33 <= s.last() <= 126 ==> strip_text(s) == s,
{
    lemma_strip_blank(s);
    if s.len() > 0 && 33 <= s[0] <= 126 && 33 <= s.last() <= 126 {
        lemma_strip_same(s);
    }
}

} // verus!
