//! Message bodies.

use crate::cookie_store::optional_text;
use crate::outside::{
    base64_encode, base64_text, bytes_as_slice, bytes_clone, bytes_from_vec, bytes_slice,
    json_from_slice, json_object_text, json_object_to_vec, json_text, json_to_vec, json_value,
    occurs_at, octets, str_from_utf8, utf8_error_text, utf8_error_words, valid_up_to,
};
use crate::text::{
    contains, cut, equal_ignoring_case, first_at, first_index, lemma_ascii_valid, lemma_first_at,
    lemma_first_is, lemma_position, lemma_position_is, lemma_strip_blank, lemma_strip_same, lemma_utf8_end_is,
    lower_all, position, position_of, same_ignoring_case, starts_with, str_equal, strip, strip_text,
    utf8_end, without_prefix,
};
use bytes::Bytes;
use vstd::prelude::*;
use vstd::slice::slice_subrange;
use vstd::std_specs::convert::FromSpecImpl;
use vstd::string::{is_ascii, StringSliceAdditionalSpecFns};
use vstd::utf8::*;

verus! {

// ── Multipart ──────────────────────────────────────────────────────────────

/// Why a multipart body was refused.
#[derive(Debug)]
pub enum MultipartError {
    MissingBoundary,
    Malformed(&'static str),
    Utf8(std::str::Utf8Error),
}

/// Why a multipart body was refused, texts in UTF-8.
pub enum MultipartFailure {
    MissingBoundary,
    Malformed(Seq<u8>),
    /// A header line is valid UTF-8 only up to an index in it.
    Utf8 { valid_up_to: nat },
}

impl View for MultipartError {
    type V = MultipartFailure;

    open spec fn view(&self) -> MultipartFailure {
        match self {
            MultipartError::MissingBoundary => MultipartFailure::MissingBoundary,
            MultipartError::Malformed(s) => MultipartFailure::Malformed(s.spec_bytes()),
            MultipartError::Utf8(e) => MultipartFailure::Utf8 { valid_up_to: valid_up_to(*e) },
        }
    }
}

impl MultipartError {
    /// The error in words.
    pub fn message(&self) -> (r: String)
        ensures
            match self {
                MultipartError::MissingBoundary => encode_utf8(r@)
                    == "boundary not found".spec_bytes(),
                MultipartError::Malformed(s) => encode_utf8(r@) == s.spec_bytes(),
                MultipartError::Utf8(e) => r@ == utf8_error_words(*e),
            },
    {
        match self {
            MultipartError::MissingBoundary => "boundary not found".to_owned(),
            MultipartError::Malformed(s) => (*s).to_owned(),
            MultipartError::Utf8(e) => utf8_error_text(e),
        }
    }
}

/// One field of a multipart body.
#[derive(Debug)]
pub struct MultiPartField {
    name: String,
    content_type: Option<String>,
    content: Bytes,
}

/// One field of a multipart body, texts in UTF-8.
pub struct Part {
    pub name: Seq<u8>,
    pub content_type: Option<Seq<u8>>,
    pub content: Seq<u8>,
}

impl View for MultiPartField {
    type V = Part;

    closed spec fn view(&self) -> Part {
        Part {
            name: encode_utf8(self.name@),
            content_type: optional_text(self.content_type),
            content: octets(self.content),
        }
    }
}

impl MultiPartField {
    pub fn name(&self) -> (r: &str)
        ensures
            r.spec_bytes() == self@.name,
    {
        self.name.as_str()
    }

    pub fn content_type(&self) -> (r: Option<&str>)
        ensures
            match r {
                Some(s) => self@.content_type == Some(s.spec_bytes()),
                None => self@.content_type is None,
            },
    {
        match &self.content_type {
            Some(s) => Some(s.as_str()),
            None => None,
        }
    }

    pub fn content(&self) -> (r: &Bytes)
        ensures
            octets(*r) == self@.content,
    {
        &self.content
    }

    /// The content in base64.
    pub fn data(&self) -> (r: String)
        ensures
            encode_utf8(r@) == base64_text(self@.content),
    {
        base64_encode(bytes_as_slice(&self.content))
    }
}

/// The index of the field called `name`, or the number of fields where there is
/// none.
pub open spec fn part_index(parts: Seq<Part>, name: Seq<u8>) -> int
    decreases parts.len(),
{
    if parts.len() == 0 {
        0
    } else if parts[0].name == name {
        0
    } else {
        1 + part_index(parts.skip(1), name)
    }
}

/// The fields with `part` in place of one of the same name, or at the end.
pub open spec fn put_part(parts: Seq<Part>, part: Part) -> Seq<Part> {
    let i = part_index(parts, part.name);
    if i < parts.len() {
        parts.update(i, part)
    } else {
        parts.push(part)
    }
}

/// What the header lines of a field have said so far.
pub struct PartHead {
    pub name: Option<Seq<u8>>,
    pub filename: Option<Seq<u8>>,
    pub content_type: Option<Seq<u8>>,
}

/// A value without white space around it and without the quotes around that.
pub open spec fn unquoted(s: Seq<u8>) -> Seq<u8> {
    let t = strip_text(s);
    if t.len() >= 2 && t[0] == 34 && t.last() == 34 {
        t.subrange(1, t.len() - 1)
    } else {
        t
    }
}

/// `head` after the parameters between the semicolons of a disposition.
pub open spec fn read_disposition(head: PartHead, s: Seq<u8>) -> PartHead
    decreases s.len(),
{
    proof {
        lemma_position(s, 59);
    }
    let end = position(s, 59);
    let param = strip_text(s.take(end));
    let next = if "name=".spec_bytes().is_prefix_of(param) {
        PartHead { name: Some(unquoted(param.skip("name=".spec_bytes().len() as int))), ..head }
    } else if "filename=".spec_bytes().is_prefix_of(param) {
        PartHead {
            filename: Some(unquoted(param.skip("filename=".spec_bytes().len() as int))),
            ..head
        }
    } else {
        head
    };
    if end < s.len() {
        read_disposition(next, s.skip(end + 1))
    } else {
        next
    }
}

/// `head` after one header line, unless the line is not UTF-8.
#[verifier::opaque]
pub open spec fn read_line(head: PartHead, line: Seq<u8>) -> Result<PartHead, MultipartFailure> {
    let colon = position(line, 58);
    let key = strip_text(line.take(colon));
    let value = strip_text(line.skip(colon + 1));
    if !valid_utf8(line) {
        Err(MultipartFailure::Utf8 { valid_up_to: utf8_end(line) })
    } else if colon == line.len() {
        Ok(head)
    } else if same_ignoring_case(key, "Content-Type".spec_bytes()) {
        if value.len() > 0 {
            Ok(PartHead { content_type: Some(value), ..head })
        } else {
            Ok(head)
        }
    } else if same_ignoring_case(key, "Content-Disposition".spec_bytes()) {
        Ok(read_disposition(head, value))
    } else {
        Ok(head)
    }
}

/// `s` without a carriage return at its end.
pub open spec fn without_cr(s: Seq<u8>) -> Seq<u8> {
    if s.len() > 0 && s.last() == 13 {
        s.drop_last()
    } else {
        s
    }
}

/// `head` after the header lines in `s`, unless one of them is not UTF-8.
pub open spec fn read_lines(head: PartHead, s: Seq<u8>) -> Result<PartHead, MultipartFailure>
    decreases s.len(),
{
    proof {
        lemma_position(s, 10);
    }
    let end = position(s, 10);
    let line = if end < s.len() {
        without_cr(s.take(end))
    } else {
        s
    };
    let next = if line.len() > 0 {
        read_line(head, line)
    } else {
        Ok(head)
    };
    if end < s.len() && next is Ok {
        read_lines(next->Ok_0, s.skip(end + 1))
    } else {
        next
    }
}

pub open spec fn empty_head() -> PartHead {
    PartHead { name: None, filename: None, content_type: None }
}

/// The name and the content type that a field's header lines give it.
#[verifier::opaque]
pub open spec fn part_head(s: Seq<u8>) -> Result<(Seq<u8>, Option<Seq<u8>>), MultipartFailure> {
    match read_lines(empty_head(), s) {
        Err(e) => Err(e),
        Ok(head) => match head.name {
            None => Err(
                MultipartFailure::Malformed("missing Content-Disposition name".spec_bytes()),
            ),
            Some(name) => Ok(
                (
                    name,
                    if head.content_type is None && head.filename is Some {
                        Some("application/octet-stream".spec_bytes())
                    } else {
                        head.content_type
                    },
                ),
            ),
        },
    }
}

/// `parts` and those that `s` holds, which starts with the header lines of a
/// field; `delimiter` stands behind the content of each field.
pub open spec fn read_parts(parts: Seq<Part>, s: Seq<u8>, delimiter: Seq<u8>) -> Result<
    Seq<Part>,
    MultipartFailure,
>
    decreases s.len(),
{
    proof {
        lemma_parts_shrink(s, delimiter);
    }
    match first_at(s, "\r\n\r\n".spec_bytes()) {
        None => Err(MultipartFailure::Malformed("headers missing CRLFCRLF".spec_bytes())),
        Some(head_end) => match part_head(s.take(head_end)) {
            Err(e) => Err(e),
            Ok(head) => {
                let rest = s.skip(head_end + 4);
                match first_at(rest, delimiter) {
                    None => Err(
                        MultipartFailure::Malformed("next boundary not found".spec_bytes()),
                    ),
                    Some(end) => {
                        let part = Part {
                            name: head.0,
                            content_type: head.1,
                            content: rest.take(end),
                        };
                        let behind = rest.skip(end + delimiter.len());
                        let next = behind.skip(2);
                        if "--".spec_bytes().is_prefix_of(behind) {
                            Ok(put_part(parts, part))
                        } else if !"\r\n".spec_bytes().is_prefix_of(behind) {
                            Err(
                                MultipartFailure::Malformed(
                                    "boundary line missing CRLF".spec_bytes(),
                                ),
                            )
                        } else if next.len() == 0 {
                            Ok(put_part(parts, part))
                        } else {
                            read_parts(put_part(parts, part), next, delimiter)
                        }
                    },
                }
            },
        },
    }
}

/// What follows a field is shorter than what starts with it.
pub proof fn lemma_parts_shrink(s: Seq<u8>, delimiter: Seq<u8>)
    ensures
        first_at(s, "\r\n\r\n".spec_bytes()) matches Some(head_end) ==> first_at(
            s.skip(head_end + 4),
            delimiter,
        ) matches Some(end) ==> "\r\n".spec_bytes().is_prefix_of(
            s.skip(head_end + 4).skip(end + delimiter.len()),
        ) ==> s.skip(head_end + 4).skip(end + delimiter.len()).skip(2).len() < s.len(),
{
    reveal_strlit("\r\n\r\n");
    reveal_strlit("\r\n");
    assert(is_ascii("\r\n\r\n") && is_ascii("\r\n"));
    lemma_first_at(s, "\r\n\r\n".spec_bytes());
    if let Some(head_end) = first_at(s, "\r\n\r\n".spec_bytes()) {
        lemma_first_at(s.skip(head_end + 4), delimiter);
    }
}

/// The fields of a multipart body whose parts `boundary` sets apart.
pub open spec fn parse_multipart(s: Seq<u8>, boundary: Seq<u8>) -> Result<
    Seq<Part>,
    MultipartFailure,
> {
    let opening = "--".spec_bytes() + boundary + "\r\n".spec_bytes();
    match first_at(s, opening) {
        None => Err(MultipartFailure::MissingBoundary),
        Some(start) => read_parts(
            Seq::empty(),
            s.skip(start + opening.len()),
            "\r\n--".spec_bytes() + boundary,
        ),
    }
}

/// `part_index` is the least index at which the name stands.
pub proof fn lemma_part_index(parts: Seq<Part>, name: Seq<u8>)
    ensures
        0 <= part_index(parts, name) <= parts.len(),
        part_index(parts, name) < parts.len() ==> parts[part_index(parts, name)].name == name,
        forall|j: int| 0 <= j < part_index(parts, name) ==> (#[trigger] parts[j]).name != name,
    decreases parts.len(),
{
    if parts.len() > 0 && parts[0].name != name {
        lemma_part_index(parts.skip(1), name);
        assert forall|j: int| 0 <= j < part_index(parts, name) implies (#[trigger] parts[j]).name
            != name by {
            if j > 0 {
                assert(parts.skip(1)[j - 1] == parts[j]);
            }
        }
    }
}

/// What the header lines of a field have said so far.
struct Head {
    name: Option<String>,
    filename: Option<String>,
    content_type: Option<String>,
}

impl View for Head {
    type V = PartHead;

    closed spec fn view(&self) -> PartHead {
        PartHead {
            name: optional_text(self.name),
            filename: optional_text(self.filename),
            content_type: optional_text(self.content_type),
        }
    }
}

/// The fields of a multipart body. No name occurs twice.
pub struct Multipart {
    fields: Vec<MultiPartField>,
}

impl View for Multipart {
    type V = Seq<Part>;

    closed spec fn view(&self) -> Seq<Part> {
        self.fields@.map_values(|f: MultiPartField| f@)
    }
}

impl Multipart {
    /// All fields.
    pub fn fields(&self) -> (r: &Vec<MultiPartField>)
        ensures
            r@.map_values(|f: MultiPartField| f@) == self@,
    {
        &self.fields
    }

    /// The field called `name`.
    pub fn get(&self, name: &str) -> (r: Option<&MultiPartField>)
        ensures
            match r {
                Some(f) => part_index(self@, name.spec_bytes()) < self@.len() && f@
                    == self@[part_index(self@, name.spec_bytes())],
                None => part_index(self@, name.spec_bytes()) == self@.len(),
            },
    {
        let i: usize = self.index_of(name);
        if i < self.fields.len() {
            Some(&self.fields[i])
        } else {
            None
        }
    }

    fn index_of(&self, name: &str) -> (r: usize)
        ensures
            r == part_index(self@, name.spec_bytes()),
            r <= self.fields@.len(),
    {
        let n: usize = self.fields.len();
        let mut i: usize = 0;
        while i < n
            invariant
                n == self.fields@.len(),
                i <= n,
                forall|j: int| 0 <= j < i ==> (#[trigger] self@[j]).name != name.spec_bytes(),
            decreases n - i,
        {
            if str_equal(self.fields[i].name.as_str(), name) {
                proof {
                    assert(self@[i as int].name == name.spec_bytes());
                    lemma_part_index(self@, name.spec_bytes());
                }
                return i;
            }
            i += 1;
        }
        proof {
            lemma_part_index(self@, name.spec_bytes());
        }
        n
    }

    fn put(&mut self, field: MultiPartField)
        ensures
            final(self)@ == put_part(old(self)@, field@),
    {
        let ghost before = self@;
        let i: usize = self.index_of(field.name.as_str());
        if i < self.fields.len() {
            self.fields.set(i, field);
            assert(self@ =~= before.update(i as int, field@));
        } else {
            self.fields.push(field);
            assert(self@ =~= before.push(field@));
        }
    }

    fn unquote(s: &str) -> (r: &str)
        ensures
            r.spec_bytes() == unquoted(s.spec_bytes()),
    {
        let t = strip(s);
        let b = t.as_bytes();
        let n: usize = b.len();
        if n >= 2 && b[0] == 34 && b[n - 1] == 34 {
            let inner = cut(t, 0).1;
            assert(inner.spec_bytes()[n - 2] == 34);
            let r = cut(inner, n - 2).0;
            assert(r.spec_bytes() =~= t.spec_bytes().subrange(1, n - 1));
            r
        } else {
            t
        }
    }

    fn parse_disposition(value: &str, head: &mut Head)
        ensures
            final(head)@ == read_disposition(old(head)@, value.spec_bytes()),
    {
        let mut rest: &str = value;
        proof {
            reveal_strlit("name=");
            reveal_strlit("filename=");
            assert(is_ascii("name="));
            assert(is_ascii("filename="));
        }
        let ghost before = head@;
        loop
            invariant_except_break
                read_disposition(head@, rest.spec_bytes()) == read_disposition(
                    before,
                    value.spec_bytes(),
                ),
            invariant
                "name=".spec_bytes().len() > 0,
                "name=".spec_bytes().last() < 128,
                "filename=".spec_bytes().len() > 0,
                "filename=".spec_bytes().last() < 128,
            ensures
                head@ == read_disposition(before, value.spec_bytes()),
            decreases rest.spec_bytes().len(),
        {
            let b = rest.as_bytes();
            let end: usize = position_of(b, 59);
            proof {
                lemma_position(b@, 59);
            }
            let last = end == b.len();
            let (param, next): (&str, &str) = if last {
                (rest, rest)
            } else {
                cut(rest, end)
            };
            assert(param.spec_bytes() =~= b@.take(end as int));
            let param = strip(param);
            if let Some(v) = without_prefix(param, "name=") {
                head.name = Some(Self::unquote(v).to_owned());
            } else if let Some(v) = without_prefix(param, "filename=") {
                head.filename = Some(Self::unquote(v).to_owned());
            }
            if last {
                break;
            }
            rest = next;
        }
    }

    fn parse_header_line(line: &[u8], head: &mut Head) -> (r: Result<(), MultipartError>)
        ensures
            match r {
                Ok(_) => read_line(old(head)@, line@) == Ok::<_, MultipartFailure>(final(head)@),
                Err(e) => read_line(old(head)@, line@) == Err::<PartHead, _>(e@),
            },
    {
        proof {
            reveal(read_line);
        }
        let s = match str_from_utf8(line) {
            Ok(s) => s,
            Err(e) => {
                proof {
                    lemma_utf8_end_is(line@, valid_up_to(e));
                }
                return Err(MultipartError::Utf8(e));
            },
        };
        let colon: usize = position_of(line, 58);
        if colon == line.len() {
            return Ok(());
        }
        proof {
            lemma_position(line@, 58);
        }
        let (key, value): (&str, &str) = cut(s, colon);
        let key = strip(key);
        let value = strip(value);
        if equal_ignoring_case(key.as_bytes(), "Content-Type".as_bytes()) {
            if value.as_bytes().len() > 0 {
                head.content_type = Some(value.to_owned());
            }
        } else if equal_ignoring_case(key.as_bytes(), "Content-Disposition".as_bytes()) {
            Self::parse_disposition(value, head);
        }
        Ok(())
    }

    fn parse_headers(hdr: &[u8]) -> (r: Result<(String, Option<String>), MultipartError>)
        ensures
            match r {
                Ok(p) => part_head(hdr@) == Ok::<_, MultipartFailure>(
                    (encode_utf8(p.0@), optional_text(p.1)),
                ),
                Err(e) => part_head(hdr@) == Err::<(Seq<u8>, Option<Seq<u8>>), _>(e@),
            },
    {
        proof {
            reveal(part_head);
        }
        let mut head = Head { name: None, filename: None, content_type: None };
        let mut rest: &[u8] = hdr;
        loop
            invariant_except_break
                read_lines(head@, rest@) == read_lines(empty_head(), hdr@),
            ensures
                read_lines(empty_head(), hdr@) == Ok::<_, MultipartFailure>(head@),
            decreases rest@.len(),
        {
            let n: usize = rest.len();
            let end: usize = position_of(rest, 10);
            let last = end == n;
            let whole = slice_subrange(rest, 0, end);
            assert(whole@ =~= rest@.take(end as int));
            let line: &[u8] = if !last && end > 0 && rest[end - 1] == 13 {
                slice_subrange(rest, 0, end - 1)
            } else {
                whole
            };
            assert(line@ =~= if last { rest@ } else { without_cr(rest@.take(end as int)) });
            if line.len() > 0 {
                if let Err(e) = Self::parse_header_line(line, &mut head) {
                    proof {
                        reveal(part_head);
                    }
                    return Err(e);
                }
            }
            if last {
                break;
            }
            rest = slice_subrange(rest, end + 1, n);
        }
        let name = match head.name {
            Some(name) => name,
            None => return Err(MultipartError::Malformed("missing Content-Disposition name")),
        };
        let mut content_type = head.content_type;
        if content_type.is_none() && head.filename.is_some() {
            content_type = Some("application/octet-stream".to_owned());
        }
        Ok((name, content_type))
    }

    /// Takes a multipart body apart.
    pub fn parse(body: &Bytes, boundary: &str) -> (r: Result<Multipart, MultipartError>)
        ensures
            match r {
                Ok(m) => parse_multipart(octets(*body), boundary.spec_bytes()) == Ok::<
                    _,
                    MultipartFailure,
                >(m@),
                Err(e) => parse_multipart(octets(*body), boundary.spec_bytes()) == Err::<
                    Seq<Part>,
                    _,
                >(e@),
            },
    {
        let buf = bytes_as_slice(body);
        let n: usize = buf.len();
        let mut open: Vec<u8> = Vec::new();
        open.extend_from_slice("--".as_bytes());
        open.extend_from_slice(boundary.as_bytes());
        open.extend_from_slice("\r\n".as_bytes());
        let mut mid: Vec<u8> = Vec::new();
        mid.extend_from_slice("\r\n--".as_bytes());
        mid.extend_from_slice(boundary.as_bytes());
        assert(open@ =~= "--".spec_bytes() + boundary.spec_bytes() + "\r\n".spec_bytes());
        assert(mid@ =~= "\r\n--".spec_bytes() + boundary.spec_bytes());
        proof {
            reveal_strlit("\r\n\r\n");
            reveal_strlit("\r\n");
            reveal_strlit("--");
            assert(is_ascii("\r\n\r\n") && is_ascii("\r\n") && is_ascii("--"));
        }

        let first: usize = match first_index(buf, open.as_slice()) {
            Some(i) => i,
            None => return Err(MultipartError::MissingBoundary),
        };
        let mut pos: usize = first + open.len();
        let mut r = Multipart { fields: Vec::new() };
        let ghost goal = parse_multipart(octets(*body), boundary.spec_bytes());
        assert(r@ =~= Seq::<Part>::empty());
        loop
            invariant_except_break
                read_parts(r@, buf@.skip(pos as int), mid@) == goal,
            invariant
                buf@ == octets(*body),
                n == buf@.len(),
                pos <= n,
                "\r\n\r\n".spec_bytes().len() == 4,
                "\r\n".spec_bytes().len() == 2,
                "--".spec_bytes().len() == 2,
                goal == parse_multipart(octets(*body), boundary.spec_bytes()),
            ensures
                goal == Ok::<Seq<Part>, MultipartFailure>(r@),
            decreases n - pos,
        {
            let rest = slice_subrange(buf, pos, n);
            assert(rest@ =~= buf@.skip(pos as int));
            let head_end: usize = match first_index(rest, "\r\n\r\n".as_bytes()) {
                Some(i) => i,
                None => return Err(MultipartError::Malformed("headers missing CRLFCRLF")),
            };
            let headers = slice_subrange(rest, 0, head_end);
            assert(headers@ =~= rest@.take(head_end as int));
            let (name, content_type) = match Self::parse_headers(headers) {
                Ok(p) => p,
                Err(e) => return Err(e),
            };
            let data_start: usize = pos + head_end + 4;
            let search = slice_subrange(buf, data_start, n);
            assert(search@ =~= rest@.skip(head_end + 4));
            let len: usize = match first_index(search, mid.as_slice()) {
                Some(i) => i,
                None => return Err(MultipartError::Malformed("next boundary not found")),
            };
            let content = bytes_slice(body, data_start, data_start + len);
            assert(octets(content) =~= search@.take(len as int));
            let behind_at: usize = data_start + len + mid.len();
            let behind = slice_subrange(buf, behind_at, n);
            assert(behind@ =~= search@.skip(len + mid@.len()));
            let field = MultiPartField { name, content_type, content };
            if starts_with(behind, "--".as_bytes()) {
                r.put(field);
                break;
            }
            if !starts_with(behind, "\r\n".as_bytes()) {
                return Err(MultipartError::Malformed("boundary line missing CRLF"));
            }
            r.put(field);
            pos = behind_at + 2;
            assert(buf@.skip(pos as int) =~= behind@.skip(2));
            if pos >= n {
                break;
            }
        }
        Ok(r)
    }
}

// ── Body ───────────────────────────────────────────────────────────────────

/// A body that is held in memory.
pub struct Body {
    bytes: Bytes,
    content_type: Option<String>,
}

/// The bytes and the content type of a body.
pub struct Content {
    pub bytes: Seq<u8>,
    pub content_type: Option<Seq<u8>>,
}

impl View for Body {
    type V = Content;

    closed spec fn view(&self) -> Content {
        Content { bytes: octets(self.bytes), content_type: optional_text(self.content_type) }
    }
}

/// What follows `boundary=` in the first of the parameters between semicolons
/// that starts with it; nothing where none does.
pub open spec fn boundary_in(s: Seq<u8>) -> Seq<u8>
    decreases s.len(),
{
    proof {
        lemma_position(s, 59);
    }
    let end = position(s, 59);
    let param = strip_text(s.take(end));
    if "boundary=".spec_bytes().is_prefix_of(param) {
        param.skip("boundary=".spec_bytes().len() as int)
    } else if end < s.len() {
        boundary_in(s.skip(end + 1))
    } else {
        Seq::empty()
    }
}

/// The boundary that a content type names.
fn boundary_of(content_type: &str) -> (r: &str)
    ensures
        r.spec_bytes() == boundary_in(content_type.spec_bytes()),
{
    let mut rest: &str = content_type;
    proof {
        reveal_strlit("boundary=");
        reveal_strlit("");
        assert(is_ascii("boundary="));
        assert(is_ascii(""));
    }
    loop
        invariant
            boundary_in(rest.spec_bytes()) == boundary_in(content_type.spec_bytes()),
            "boundary=".spec_bytes().len() > 0,
            "boundary=".spec_bytes().last() < 128,
            "".spec_bytes().len() == 0,
        decreases rest.spec_bytes().len(),
    {
        let b = rest.as_bytes();
        let end: usize = position_of(b, 59);
        proof {
            lemma_position(b@, 59);
        }
        let last = end == b.len();
        let (param, next): (&str, &str) = if last {
            (rest, rest)
        } else {
            cut(rest, end)
        };
        assert(param.spec_bytes() =~= b@.take(end as int));
        if let Some(v) = without_prefix(strip(param), "boundary=") {
            return v;
        }
        if last {
            assert("".spec_bytes() =~= Seq::<u8>::empty());
            return "";
        }
        rest = next;
    }
}

impl Body {
    /// A body of the bytes that `bytes` holds.
    pub fn from_bytes(bytes: &Bytes, content_type: Option<String>) -> (r: Body)
        ensures
            r@ == (Content { bytes: octets(*bytes), content_type: optional_text(content_type) }),
    {
        Body { bytes: bytes_clone(bytes), content_type }
    }

    /// The JSON value that the body holds, where its content type starts with
    /// `application/json`.
    pub fn as_json(&self) -> (r: Option<serde_json::Value>)
        ensures
            r == (match self@.content_type {
                Some(t) => if "application/json".spec_bytes().is_prefix_of(t) {
                    json_value(self@.bytes)
                } else {
                    None
                },
                None => None,
            }),
    {
        match &self.content_type {
            Some(t) => if starts_with(t.as_str().as_bytes(), "application/json".as_bytes()) {
                json_from_slice(bytes_as_slice(&self.bytes))
            } else {
                None
            },
            None => None,
        }
    }

    /// The fields of the body, where its content type starts with
    /// `multipart/form-data` and its bytes keep to the boundary named there.
    pub fn as_multipart(&self) -> (r: Option<Multipart>)
        ensures
            match r {
                Some(m) => self@.content_type matches Some(t)
                    && "multipart/form-data".spec_bytes().is_prefix_of(t) && parse_multipart(
                    self@.bytes,
                    boundary_in(t),
                ) == Ok::<_, MultipartFailure>(m@),
                None => self@.content_type matches Some(t)
                    ==> "multipart/form-data".spec_bytes().is_prefix_of(t) ==> parse_multipart(
                    self@.bytes,
                    boundary_in(t),
                ) is Err,
            },
    {
        match &self.content_type {
            Some(t) => if starts_with(t.as_str().as_bytes(), "multipart/form-data".as_bytes()) {
                Multipart::parse(&self.bytes, boundary_of(t.as_str())).ok()
            } else {
                None
            },
            None => None,
        }
    }

    /// The body with other bytes.
    pub fn with_bytes(self, bytes: Bytes) -> (r: Body)
        ensures
            r@ == (Content { bytes: octets(bytes), ..self@ }),
    {
        Body { bytes, content_type: self.content_type }
    }

    pub fn to_bytes(&self) -> (r: Bytes)
        ensures
            octets(r) == self@.bytes,
    {
        bytes_clone(&self.bytes)
    }
}

/// The body that a JSON text makes.
pub open spec fn json_content(text: Seq<u8>) -> Content {
    Content { bytes: text, content_type: Some("application/json".spec_bytes()) }
}

impl FromSpecImpl<serde_json::Value> for Body {
    open spec fn obeys_from_spec() -> bool {
        false
    }

    open spec fn from_spec(json: serde_json::Value) -> Body {
        arbitrary()
    }
}

impl From<serde_json::Value> for Body {
    /// A body of the JSON text of a value.
    fn from(json: serde_json::Value) -> (r: Body)
        ensures
            r@ == json_content(json_text(json)),
    {
        Body {
            bytes: bytes_from_vec(json_to_vec(&json)),
            content_type: Some("application/json".to_owned()),
        }
    }
}

impl FromSpecImpl<serde_json::Map<String, serde_json::Value>> for Body {
    open spec fn obeys_from_spec() -> bool {
        false
    }

    open spec fn from_spec(json: serde_json::Map<String, serde_json::Value>) -> Body {
        arbitrary()
    }
}

impl From<serde_json::Map<String, serde_json::Value>> for Body {
    /// A body of the JSON text of an object.
    fn from(json: serde_json::Map<String, serde_json::Value>) -> (r: Body)
        ensures
            r@ == json_content(json_object_text(json)),
    {
        Body {
            bytes: bytes_from_vec(json_object_to_vec(&json)),
            content_type: Some("application/json".to_owned()),
        }
    }
}

// ── Laws ───────────────────────────────────────────────────────────────────

/// No name occurs twice.
pub open spec fn parts_distinct(parts: Seq<Part>) -> bool {
    forall|i: int, j: int|
        0 <= i < j < parts.len() ==> (#[trigger] parts[i]).name != (#[trigger] parts[j]).name
}

proof fn lemma_put_distinct(parts: Seq<Part>, part: Part)
    requires
        parts_distinct(parts),
    ensures
        parts_distinct(put_part(parts, part)),
{
    lemma_part_index(parts, part.name);
}

proof fn lemma_read_distinct(parts: Seq<Part>, s: Seq<u8>, delimiter: Seq<u8>)
    requires
        parts_distinct(parts),
    ensures
        read_parts(parts, s, delimiter) matches Ok(all) ==> parts_distinct(all),
    decreases s.len(),
{
    lemma_parts_shrink(s, delimiter);
    if let Some(head_end) = first_at(s, "\r\n\r\n".spec_bytes()) {
        if let Ok(head) = part_head(s.take(head_end)) {
            let rest = s.skip(head_end + 4);
            if let Some(end) = first_at(rest, delimiter) {
                let part = Part { name: head.0, content_type: head.1, content: rest.take(end) };
                lemma_put_distinct(parts, part);
                let behind = rest.skip(end + delimiter.len());
                if "\r\n".spec_bytes().is_prefix_of(behind) {
                    lemma_read_distinct(put_part(parts, part), behind.skip(2), delimiter);
                }
            }
        }
    }
}

/// The fields of a multipart body have different names: of two with the same
/// name the later one counts.
pub proof fn law_field_names_distinct(s: Seq<u8>, boundary: Seq<u8>)
    ensures
        parse_multipart(s, boundary) matches Ok(parts) ==> parts_distinct(parts),
{
    let opening = "--".spec_bytes() + boundary + "\r\n".spec_bytes();
    if let Some(start) = first_at(s, opening) {
        lemma_read_distinct(
            Seq::empty(),
            s.skip(start + opening.len()),
            "\r\n--".spec_bytes() + boundary,
        );
    }
}

/// A field that stays the same in a form: it has a content type; its name has no
/// quote and no semicolon; neither has a line end; and the content type is not
/// empty and has no white space around it.
pub open spec fn writable(p: Part) -> bool {
    &&& valid_utf8(p.name)
    &&& forall|i: int|
        0 <= i < p.name.len() ==> #[trigger] p.name[i] != 34 && p.name[i] != 59 && p.name[i] != 13
            && p.name[i] != 10
    &&& p.content_type matches Some(c) && valid_utf8(c) && c.len() > 0 && strip_text(c) == c
        && forall|i: int| 0 <= i < c.len() ==> #[trigger] c[i] != 13 && c[i] != 10
}

/// The line that names a field.
pub open spec fn disposition_line(name: Seq<u8>) -> Seq<u8> {
    "Content-Disposition".spec_bytes() + ": form-data; name=\"".spec_bytes() + name
        + "\"".spec_bytes()
}

/// The line that gives a field's content type.
pub open spec fn type_line(content_type: Seq<u8>) -> Seq<u8> {
    "Content-Type".spec_bytes() + ": ".spec_bytes() + content_type
}

/// The header lines of a field in a form.
pub open spec fn part_header(p: Part) -> Seq<u8> {
    disposition_line(p.name) + "\r\n".spec_bytes() + type_line(p.content_type->Some_0)
}

/// What follows the first boundary line of a form, from the field at `i` on: the
/// header lines of each field, an empty line, its content, and the next boundary
/// line.
pub open spec fn form_rest(parts: Seq<Part>, i: int, boundary: Seq<u8>) -> Seq<u8>
    decreases parts.len() - i,
{
    if i < 0 || i >= parts.len() {
        Seq::empty()
    } else {
        part_header(parts[i]) + "\r\n\r\n".spec_bytes() + parts[i].content + ("\r\n--".spec_bytes()
            + boundary) + (if i == parts.len() - 1 {
            "--".spec_bytes()
        } else {
            "\r\n".spec_bytes() + form_rest(parts, i + 1, boundary)
        })
    }
}

/// Fields in the multipart form, set apart by a boundary.
pub open spec fn form_text(parts: Seq<Part>, boundary: Seq<u8>) -> Seq<u8> {
    "--".spec_bytes() + boundary + "\r\n".spec_bytes() + form_rest(parts, 0, boundary)
}

/// The texts that a form is made of.
proof fn lemma_form_literals()
    ensures
        "Content-Disposition".spec_bytes() == seq![67u8, 111, 110, 116, 101, 110, 116, 45, 68, 105, 115, 112, 111, 115, 105, 116, 105, 111, 110],
        "Content-Type".spec_bytes() == seq![67u8, 111, 110, 116, 101, 110, 116, 45, 84, 121, 112, 101],
        ": form-data; name=\"".spec_bytes() == seq![58u8, 32, 102, 111, 114, 109, 45, 100, 97, 116, 97, 59, 32, 110, 97, 109, 101, 61, 34],
        "\"".spec_bytes() == seq![34u8],
        ": ".spec_bytes() == seq![58u8, 32],
        "\r\n".spec_bytes() == seq![13u8, 10],
        "\r\n\r\n".spec_bytes() == seq![13u8, 10, 13, 10],
        "--".spec_bytes() == seq![45u8, 45],
        "\r\n--".spec_bytes() == seq![13u8, 10, 45, 45],
        "name=".spec_bytes() == seq![110u8, 97, 109, 101, 61],
        "filename=".spec_bytes() == seq![102u8, 105, 108, 101, 110, 97, 109, 101, 61],
{
    reveal_strlit("Content-Disposition");
    assert(is_ascii("Content-Disposition"));
    assert("Content-Disposition".spec_bytes() =~= seq![67u8, 111, 110, 116, 101, 110, 116, 45, 68, 105, 115, 112, 111, 115, 105, 116, 105, 111, 110]);
    reveal_strlit("Content-Type");
    assert(is_ascii("Content-Type"));
    assert("Content-Type".spec_bytes() =~= seq![67u8, 111, 110, 116, 101, 110, 116, 45, 84, 121, 112, 101]);
    reveal_strlit(": form-data; name=\"");
    assert(is_ascii(": form-data; name=\""));
    assert(": form-data; name=\"".spec_bytes() =~= seq![58u8, 32, 102, 111, 114, 109, 45, 100, 97, 116, 97, 59, 32, 110, 97, 109, 101, 61, 34]);
    reveal_strlit("\"");
    assert(is_ascii("\""));
    assert("\"".spec_bytes() =~= seq![34u8]);
    reveal_strlit(": ");
    assert(is_ascii(": "));
    assert(": ".spec_bytes() =~= seq![58u8, 32]);
    reveal_strlit("\r\n");
    assert(is_ascii("\r\n"));
    assert("\r\n".spec_bytes() =~= seq![13u8, 10]);
    reveal_strlit("\r\n\r\n");
    assert(is_ascii("\r\n\r\n"));
    assert("\r\n\r\n".spec_bytes() =~= seq![13u8, 10, 13, 10]);
    reveal_strlit("--");
    assert(is_ascii("--"));
    assert("--".spec_bytes() =~= seq![45u8, 45]);
    reveal_strlit("\r\n--");
    assert(is_ascii("\r\n--"));
    assert("\r\n--".spec_bytes() =~= seq![13u8, 10, 45, 45]);
    reveal_strlit("name=");
    assert(is_ascii("name="));
    assert("name=".spec_bytes() =~= seq![110u8, 97, 109, 101, 61]);
    reveal_strlit("filename=");
    assert(is_ascii("filename="));
    assert("filename=".spec_bytes() =~= seq![102u8, 105, 108, 101, 110, 97, 109, 101, 61]);
}

#[verifier::spinoff_prover]
proof fn lemma_disposition_params(head: PartHead, name: Seq<u8>)
    requires
        valid_utf8(name),
        forall|i: int| 0 <= i < name.len() ==> #[trigger] name[i] != 59,
    ensures
        read_disposition(head, seq![102u8, 111, 114, 109, 45, 100, 97, 116, 97, 59, 32, 110, 97, 109, 101, 61, 34] + name + seq![34u8]) == (PartHead {
            name: Some(name),
            ..head
        }),
{
    lemma_form_literals();
    let front = seq![102u8, 111, 114, 109, 45, 100, 97, 116, 97];
    let label = seq![110u8, 97, 109, 101, 61, 34];
    let quoted = seq![34u8] + name + seq![34u8];
    let param = label + name + seq![34u8];
    let v = seq![102u8, 111, 114, 109, 45, 100, 97, 116, 97, 59, 32, 110, 97, 109, 101, 61, 34] + name + seq![34u8];
    assert(v =~= front + seq![59u8, 32u8] + param);
    assert forall|j: int| 0 <= j < 9 implies v[j] != 59 by {
        assert(v[j] == front[j]);
    }
    lemma_position_is(v, 59, 9);
    assert(v.take(9) =~= front);
    lemma_ascii_valid(front);
    lemma_strip_same(front);
    assert(!"name=".spec_bytes().is_prefix_of(front)) by {
        assert(front.subrange(0, 5)[0] == 102);
    }
    assert(!"filename=".spec_bytes().is_prefix_of(front)) by {
        assert(front.subrange(0, 9)[1] == 111);
    }
    let rest = v.skip(10);
    assert(rest =~= seq![32u8] + param);
    assert forall|j: int| 0 <= j < rest.len() implies rest[j] != 59 by {
        if 7 <= j < 7 + name.len() {
            assert(rest[j] == name[j - 7]);
        }
    }
    lemma_position_is(rest, 59, rest.len() as int);
    assert(rest.take(rest.len() as int) =~= rest);
    lemma_ascii_valid(label);
    lemma_ascii_valid(seq![34u8]);
    valid_utf8_concat(label, name);
    valid_utf8_concat(label + name, seq![34u8]);
    lemma_strip_blank(param);
    lemma_strip_same(param);
    assert(param.subrange(0, 5) =~= "name=".spec_bytes());
    assert(param.skip(5) =~= quoted);
    valid_utf8_concat(seq![34u8], name);
    valid_utf8_concat(seq![34u8] + name, seq![34u8]);
    lemma_strip_same(quoted);
    assert(quoted.subrange(1, quoted.len() - 1) =~= name);
    let after = PartHead { name: Some(name), ..head };
    assert(read_disposition(head, rest) == after);
}

#[verifier::spinoff_prover]
proof fn lemma_disposition_line(head: PartHead, name: Seq<u8>)
    requires
        valid_utf8(name),
        forall|i: int| 0 <= i < name.len() ==> #[trigger] name[i] != 59,
    ensures
        read_line(head, disposition_line(name)) == Ok::<_, MultipartFailure>(
            PartHead { name: Some(name), ..head },
        ),
        valid_utf8(disposition_line(name)),
{
    reveal(read_line);
    lemma_form_literals();
    let key = "Content-Disposition".spec_bytes();
    let line = disposition_line(name);
    let front = key + ": form-data; name=\"".spec_bytes();
    let value = seq![102u8, 111, 114, 109, 45, 100, 97, 116, 97, 59, 32, 110, 97, 109, 101, 61, 34] + name + seq![34u8];
    assert(line =~= front + name + seq![34u8]);
    assert forall|j: int| 0 <= j < 19 implies line[j] != 58 by {
        assert(line[j] == key[j]);
    }
    lemma_position_is(line, 58, 19);
    assert(line.take(19) =~= key);
    assert(line.skip(20) =~= seq![32u8] + value);
    lemma_ascii_valid(key);
    lemma_strip_same(key);
    lemma_ascii_valid(front);
    lemma_ascii_valid(seq![102u8, 111, 114, 109, 45, 100, 97, 116, 97, 59, 32, 110, 97, 109, 101, 61, 34]);
    lemma_ascii_valid(seq![34u8]);
    valid_utf8_concat(front, name);
    valid_utf8_concat(front + name, seq![34u8]);
    valid_utf8_concat(seq![102u8, 111, 114, 109, 45, 100, 97, 116, 97, 59, 32, 110, 97, 109, 101, 61, 34], name);
    valid_utf8_concat(seq![102u8, 111, 114, 109, 45, 100, 97, 116, 97, 59, 32, 110, 97, 109, 101, 61, 34] + name, seq![34u8]);
    lemma_strip_blank(value);
    lemma_strip_same(value);
    assert(lower_all(key).len() == 19);
    assert(lower_all("Content-Type".spec_bytes()).len() == 12);
    lemma_disposition_params(head, name);
}

#[verifier::spinoff_prover]
proof fn lemma_type_line(head: PartHead, c: Seq<u8>)
    requires
        valid_utf8(c),
        c.len() > 0,
        strip_text(c) == c,
    ensures
        read_line(head, type_line(c)) == Ok::<_, MultipartFailure>(
            PartHead { content_type: Some(c), ..head },
        ),
{
    reveal(read_line);
    lemma_form_literals();
    let key = "Content-Type".spec_bytes();
    let line = type_line(c);
    let front = key + ": ".spec_bytes();
    assert forall|j: int| 0 <= j < 12 implies line[j] != 58 by {
        assert(line[j] == key[j]);
    }
    lemma_position_is(line, 58, 12);
    assert(line.take(12) =~= key);
    assert(line.skip(13) =~= seq![32u8] + c);
    lemma_ascii_valid(key);
    lemma_ascii_valid(front);
    valid_utf8_concat(front, c);
    lemma_strip_same(key);
    lemma_strip_blank(c);
}

/// The first line of a field's header lines has no line end in it.
proof fn lemma_line_unbroken(name: Seq<u8>, b: u8)
    requires
        b == 13 || b == 10,
        forall|i: int| 0 <= i < name.len() ==> #[trigger] name[i] != b,
    ensures
        forall|i: int|
            0 <= i < disposition_line(name).len() ==> #[trigger] disposition_line(name)[i] != b,
{
    lemma_form_literals();
    let line = disposition_line(name);
    let front = "Content-Disposition".spec_bytes() + ": form-data; name=\"".spec_bytes();
    assert(line =~= front + name + seq![34u8]);
    assert forall|i: int| 0 <= i < line.len() implies #[trigger] line[i] != b by {
        if front.len() <= i < front.len() + name.len() {
            assert(line[i] == name[i - front.len()]);
        } else if i < front.len() {
            assert(line[i] == front[i]);
        }
    }
}

proof fn lemma_type_unbroken(c: Seq<u8>, b: u8)
    requires
        b == 13 || b == 10,
        forall|i: int| 0 <= i < c.len() ==> #[trigger] c[i] != b,
    ensures
        forall|i: int| 0 <= i < type_line(c).len() ==> #[trigger] type_line(c)[i] != b,
        type_line(c).len() > 0,
        type_line(c)[0] == 67,
{
    lemma_form_literals();
    let line = type_line(c);
    assert forall|i: int| 0 <= i < line.len() implies #[trigger] line[i] != b by {
        if i >= 14 {
            assert(line[i] == c[i - 14]);
        }
    }
}

#[verifier::spinoff_prover]
proof fn lemma_header_read(p: Part)
    requires
        writable(p),
    ensures
        part_head(part_header(p)) == Ok::<_, MultipartFailure>((p.name, p.content_type)),
{
    reveal(part_head);
    lemma_form_literals();
    let c = p.content_type->Some_0;
    let first = disposition_line(p.name);
    let second = type_line(c);
    let s = part_header(p);
    let named = PartHead { name: Some(p.name), ..empty_head() };
    let end = first.len() as int + 1;
    lemma_line_unbroken(p.name, 10);
    lemma_line_unbroken(p.name, 13);
    lemma_type_unbroken(c, 10);
    assert(s =~= first + seq![13u8, 10u8] + second);
    assert forall|j: int| 0 <= j < end implies s[j] != 10 by {
        if j < first.len() {
            assert(s[j] == first[j]);
        }
    }
    lemma_position_is(s, 10, end);
    assert(s.take(end).drop_last() =~= first);
    assert(s.skip(end + 1) =~= second);
    assert(first.len() > 0);
    lemma_disposition_line(empty_head(), p.name);
    lemma_position_is(second, 10, second.len() as int);
    lemma_type_line(named, c);
    assert(read_lines(named, second) == Ok::<_, MultipartFailure>(
        PartHead { content_type: Some(c), ..named },
    ));
}

/// The header lines of a field end at the first empty line.
#[verifier::spinoff_prover]
proof fn lemma_header_end(p: Part, rest: Seq<u8>)
    requires
        writable(p),
    ensures
        first_at(part_header(p) + "\r\n\r\n".spec_bytes() + rest, "\r\n\r\n".spec_bytes()) == Some(
            part_header(p).len() as int,
        ),
{
    lemma_form_literals();
    let c = p.content_type->Some_0;
    let first = disposition_line(p.name);
    let second = type_line(c);
    let header = part_header(p);
    let needle = "\r\n\r\n".spec_bytes();
    let s = header + needle + rest;
    lemma_line_unbroken(p.name, 13);
    lemma_type_unbroken(c, 13);
    assert(header =~= first + seq![13u8, 10u8] + second);
    assert(s.subrange(header.len() as int, header.len() as int + 4) =~= needle);
    assert forall|j: int| 0 <= j < header.len() implies !occurs_at(s, needle, j) by {
        if occurs_at(s, needle, j) {
            let found = s.subrange(j, j + 4);
            assert(found[0] == s[j] && found[2] == s[j + 2]);
            assert(s[j] == header[j]);
            if j < first.len() {
                assert(header[j] == first[j]);
            } else if j == first.len() {
                assert(header[j + 2] == second[0]);
                assert(s[j + 2] == header[j + 2]);
            } else if j > first.len() + 1 {
                assert(header[j] == second[j - first.len() - 2]);
            }
        }
    }
    lemma_first_is(s, needle, header.len() as int);
}

/// A field's content ends where the delimiter first stands, which starts with a
/// carriage return and has no other.
proof fn lemma_content_end(content: Seq<u8>, needle: Seq<u8>, rest: Seq<u8>)
    requires
        needle.len() > 0,
        needle[0] == 13,
        forall|i: int| 1 <= i < needle.len() ==> #[trigger] needle[i] != 13,
        !contains(content, needle),
    ensures
        first_at(content + needle + rest, needle) == Some(content.len() as int),
{
    let s = content + needle + rest;
    let n = content.len() as int;
    assert(s.subrange(n, n + needle.len()) =~= needle);
    assert forall|j: int| 0 <= j < n implies !occurs_at(s, needle, j) by {
        if occurs_at(s, needle, j) {
            let found = s.subrange(j, j + needle.len());
            if j + needle.len() <= n {
                assert(content.subrange(j, j + needle.len()) =~= found);
                assert(occurs_at(content, needle, j));
            } else {
                assert(found[n - j] == s[n]);
                assert(s[n] == needle[0]);
                assert(needle[n - j] == 13);
            }
        }
    }
    lemma_first_is(s, needle, n);
}

/// Reading one field of a form leaves what stands behind the delimiter.
#[verifier::spinoff_prover]
proof fn lemma_part_read(known: Seq<Part>, p: Part, delimiter: Seq<u8>, behind: Seq<u8>)
    requires
        writable(p),
        delimiter.len() > 0,
        delimiter[0] == 13,
        forall|i: int| 1 <= i < delimiter.len() ==> #[trigger] delimiter[i] != 13,
        !contains(p.content, delimiter),
    ensures
        ({
            let s = part_header(p) + "\r\n\r\n".spec_bytes() + (p.content + delimiter + behind);
            &&& "--".spec_bytes().is_prefix_of(behind) ==> read_parts(known, s, delimiter) == Ok::<
                _,
                MultipartFailure,
            >(put_part(known, p))
            &&& !"--".spec_bytes().is_prefix_of(behind) && "\r\n".spec_bytes().is_prefix_of(behind)
                && behind.skip(2).len() > 0 ==> read_parts(known, s, delimiter) == read_parts(
                put_part(known, p),
                behind.skip(2),
                delimiter,
            )
        }),
{
    let header = part_header(p);
    let blank = "\r\n\r\n".spec_bytes();
    assert(blank.len() == 4) by {
        lemma_form_literals();
    }
    let tail = p.content + delimiter + behind;
    let s = header + blank + tail;
    lemma_header_end(p, tail);
    assert(s.take(header.len() as int) =~= header);
    lemma_header_read(p);
    let rest = s.skip(header.len() as int + 4);
    assert(rest =~= tail);
    lemma_content_end(p.content, delimiter, behind);
    assert(rest.take(p.content.len() as int) =~= p.content);
    assert(rest.skip(p.content.len() as int + delimiter.len()) =~= behind);
    let part = Part { name: p.name, content_type: p.content_type, content: p.content };
    assert(part == p);
}

proof fn lemma_form_read(parts: Seq<Part>, i: int, boundary: Seq<u8>)
    requires
        0 <= i < parts.len(),
        parts_distinct(parts),
        forall|k: int| 0 <= k < parts.len() ==> writable(#[trigger] parts[k]),
        forall|k: int|
            0 <= k < parts.len() ==> !contains(
                (#[trigger] parts[k]).content,
                "\r\n--".spec_bytes() + boundary,
            ),
        forall|k: int| 0 <= k < boundary.len() ==> #[trigger] boundary[k] != 13,
    ensures
        read_parts(
            parts.take(i),
            form_rest(parts, i, boundary),
            "\r\n--".spec_bytes() + boundary,
        ) == Ok::<_, MultipartFailure>(parts),
    decreases parts.len() - i,
{
    let p = parts[i];
    let delimiter = "\r\n--".spec_bytes() + boundary;
    let last = i == parts.len() - 1;
    let behind = if last {
        "--".spec_bytes()
    } else {
        "\r\n".spec_bytes() + form_rest(parts, i + 1, boundary)
    };
    let known = parts.take(i);
    assert(writable(p));
    assert(delimiter.len() >= 4 && delimiter[0] == 13) by {
        lemma_form_literals();
    }
    assert forall|k: int| 1 <= k < delimiter.len() implies #[trigger] delimiter[k] != 13 by {
        lemma_form_literals();
        if k >= 4 {
            assert(delimiter[k] == boundary[k - 4]);
        }
    }
    lemma_part_read(known, p, delimiter, behind);
    assert(form_rest(parts, i, boundary) =~= part_header(p) + "\r\n\r\n".spec_bytes() + (p.content
        + delimiter + behind));
    assert forall|j: int| 0 <= j < known.len() implies (#[trigger] known[j]).name != p.name by {
        assert(known[j] == parts[j]);
    }
    lemma_part_index(known, p.name);
    assert(put_part(known, p) =~= parts.take(i + 1));
    if last {
        assert(behind.subrange(0, behind.len() as int) =~= behind);
        assert(parts.take(i + 1) =~= parts);
    } else {
        let next = form_rest(parts, i + 1, boundary);
        lemma_form_literals();
        assert(!"--".spec_bytes().is_prefix_of(behind)) by {
            assert(behind.subrange(0, 2)[0] == 13);
        }
        assert(behind.subrange(0, 2) =~= "\r\n".spec_bytes());
        assert(behind.skip(2) =~= next);
        assert(next.len() > 0);
        lemma_form_read(parts, i + 1, boundary);
    }
}

/// Fields that were written in the multipart form are read back as they were:
/// with their names, their content types and their contents, byte for byte, and
/// no others.
pub proof fn law_form_reads_back(parts: Seq<Part>, boundary: Seq<u8>)
    requires
        parts.len() > 0,
        parts_distinct(parts),
        forall|k: int| 0 <= k < parts.len() ==> writable(#[trigger] parts[k]),
        forall|k: int|
            0 <= k < parts.len() ==> !contains(
                (#[trigger] parts[k]).content,
                "\r\n--".spec_bytes() + boundary,
            ),
        forall|k: int|
            0 <= k < boundary.len() ==> #[trigger] boundary[k] != 13 && boundary[k] != 10,
    ensures
        parse_multipart(form_text(parts, boundary), boundary) == Ok::<_, MultipartFailure>(parts),
{
    let opening = "--".spec_bytes() + boundary + "\r\n".spec_bytes();
    let rest = form_rest(parts, 0, boundary);
    let s = form_text(parts, boundary);
    assert(s =~= opening + rest);
    assert(s.subrange(0, opening.len() as int) =~= opening);
    lemma_first_is(s, opening, 0);
    assert(s.skip(opening.len() as int) =~= rest);
    lemma_form_read(parts, 0, boundary);
    assert(parts.take(0) =~= Seq::<Part>::empty());
}

// ── How a form is taken apart ──────────────────────────────────────────────

/// A field with a new name goes to the end; one with a name that is there takes
/// the place of the field that had it.
pub proof fn law_put_part(parts: Seq<Part>, part: Part, i: int)
    ensures
        (forall|j: int| 0 <= j < parts.len() ==> (#[trigger] parts[j]).name != part.name)
            ==> put_part(parts, part) == parts.push(part),
        0 <= i < parts.len() && parts[i].name == part.name && (forall|j: int|
            0 <= j < i ==> (#[trigger] parts[j]).name != part.name) ==> put_part(parts, part)
            == parts.take(i) + seq![part] + parts.skip(i + 1),
{
    lemma_part_index(parts, part.name);
    if 0 <= i < parts.len() && parts[i].name == part.name && (forall|j: int|
        0 <= j < i ==> (#[trigger] parts[j]).name != part.name) {
        assert(part_index(parts, part.name) == i);
        assert(put_part(parts, part) =~= parts.take(i) + seq![part] + parts.skip(i + 1));
    }
}

/// The quotes around a value are taken off, and nothing else but white space.
pub proof fn law_unquoted(s: Seq<u8>)
    requires
        valid_utf8(s),
    ensures
        unquoted(seq![34u8] + s + seq![34u8]) == s,
        s.len() > 0 && 33 <= s[0] <= 126 && 33 <= s.last() <= 126 && !(s[0] == 34 && s.last() == 34
            && s.len() > 1) ==> unquoted(s) == s,
{
    let quoted = seq![34u8] + s + seq![34u8];
    lemma_ascii_valid(seq![34u8]);
    valid_utf8_concat(seq![34u8], s);
    valid_utf8_concat(seq![34u8] + s, seq![34u8]);
    lemma_strip_same(quoted);
    assert(quoted.subrange(1, quoted.len() - 1) =~= s);
    if s.len() > 0 && 33 <= s[0] <= 126 && 33 <= s.last() <= 126 {
        lemma_strip_same(s);
    }
}

/// A disposition is read parameter by parameter. One that starts with `name=` sets
/// the name, one that starts with `filename=` sets the file name, and any other
/// says nothing.
pub proof fn law_disposition(head: PartHead, param: Seq<u8>, rest: Seq<u8>)
    requires
        forall|i: int| 0 <= i < param.len() ==> #[trigger] param[i] != 59,
    ensures
        ({
            let text = strip_text(param);
            let after = read_disposition(head, param);
            &&& read_disposition(head, param + seq![59u8] + rest) == read_disposition(after, rest)
            &&& after.content_type == head.content_type
            &&& "name=".spec_bytes().is_prefix_of(text) ==> after.name == Some(
                unquoted(text.skip(5)),
            ) && after.filename == head.filename
            &&& "filename=".spec_bytes().is_prefix_of(text) ==> after.filename == Some(
                unquoted(text.skip(9)),
            ) && after.name == head.name
            &&& !"name=".spec_bytes().is_prefix_of(text) && !"filename=".spec_bytes().is_prefix_of(
                text,
            ) ==> after == head
        }),
{
    lemma_form_literals();
    let s = param + seq![59u8] + rest;
    lemma_position_is(param, 59, param.len() as int);
    lemma_position_is(s, 59, param.len() as int);
    assert(param.take(param.len() as int) =~= param);
    assert(s.take(param.len() as int) =~= param);
    assert(s.skip(param.len() as int + 1) =~= rest);
    let text = strip_text(param);
    if "name=".spec_bytes().is_prefix_of(text) && "filename=".spec_bytes().is_prefix_of(text) {
        assert(text.subrange(0, 5)[0] == text[0]);
        assert(text.subrange(0, 9)[0] == text[0]);
    }
}

/// What one header line of a field says. One that is not UTF-8 is refused, up to
/// where it is. A `Content-Type` line with a value, in any case, gives the content
/// type, a `Content-Disposition` line is read as such, and any other says nothing.
#[verifier::spinoff_prover]
pub proof fn law_part_line(head: PartHead, key: Seq<u8>, value: Seq<u8>)
    requires
        forall|i: int| 0 <= i < key.len() ==> #[trigger] key[i] != 58,
    ensures
        ({
            let line = key + seq![58u8] + value;
            let name = strip_text(key);
            let text = strip_text(value);
            let is_type = same_ignoring_case(name, "Content-Type".spec_bytes());
            let is_disposition = same_ignoring_case(name, "Content-Disposition".spec_bytes());
            &&& !valid_utf8(line) ==> read_line(head, line) == Err::<PartHead, _>(
                MultipartFailure::Utf8 { valid_up_to: utf8_end(line) },
            )
            &&& valid_utf8(line) && is_type && text.len() > 0 ==> read_line(head, line) == Ok::<
                _,
                MultipartFailure,
            >(
                PartHead {
                    name: head.name,
                    filename: head.filename,
                    content_type: Some(text),
                },
            )
            &&& valid_utf8(line) && is_disposition ==> read_line(head, line) == Ok::<
                _,
                MultipartFailure,
            >(read_disposition(head, text))
            &&& valid_utf8(line) && !is_disposition && !(is_type && text.len() > 0) ==> read_line(
                head,
                line,
            ) == Ok::<_, MultipartFailure>(head)
            &&& valid_utf8(key) ==> read_line(head, key) == Ok::<_, MultipartFailure>(head)
            &&& !valid_utf8(key) ==> read_line(head, key) == Err::<PartHead, _>(
                MultipartFailure::Utf8 { valid_up_to: utf8_end(key) },
            )
        }),
{
    reveal(read_line);
    let line = key + seq![58u8] + value;
    lemma_position_is(line, 58, key.len() as int);
    lemma_position_is(key, 58, key.len() as int);
    assert(line.take(key.len() as int) =~= key);
    assert(line.skip(key.len() as int + 1) =~= value);
    lemma_keys_differ(strip_text(key));
}

/// No text is the key of both kinds of header line.
proof fn lemma_keys_differ(key: Seq<u8>)
    ensures
        !(same_ignoring_case(key, "Content-Type".spec_bytes()) && same_ignoring_case(
            key,
            "Content-Disposition".spec_bytes(),
        )),
{
    reveal_strlit("Content-Type");
    reveal_strlit("Content-Disposition");
    assert(is_ascii("Content-Type") && is_ascii("Content-Disposition"));
    assert(lower_all("Content-Disposition".spec_bytes()).len() == 19);
    assert(lower_all("Content-Type".spec_bytes()).len() == 12);
}

/// The header lines of a field are read one by one, up to the first that is
/// refused, whether or not a carriage return stands in front of the line feed;
/// empty ones say nothing.
pub proof fn law_part_lines(head: PartHead, line: Seq<u8>, rest: Seq<u8>)
    requires
        forall|i: int| 0 <= i < line.len() ==> #[trigger] line[i] != 10,
    ensures
        ({
            let after = if line.len() > 0 {
                read_line(head, line)
            } else {
                Ok(head)
            };
            &&& read_lines(head, line) == after
            &&& read_lines(head, line + seq![13u8, 10u8] + rest) == (match after {
                Ok(next) => read_lines(next, rest),
                Err(e) => Err(e),
            })
            &&& line.len() == 0 || line.last() != 13 ==> read_lines(head, line + seq![10u8] + rest)
                == (match after {
                Ok(next) => read_lines(next, rest),
                Err(e) => Err(e),
            })
        }),
{
    lemma_position_is(line, 10, line.len() as int);
    let s = line + seq![13u8, 10u8] + rest;
    let end = line.len() as int + 1;
    assert forall|j: int| 0 <= j < end implies s[j] != 10 by {
        if j < line.len() {
            assert(s[j] == line[j]);
        }
    }
    lemma_position_is(s, 10, end);
    assert(s.take(end).last() == 13);
    assert(s.take(end).drop_last() =~= line);
    assert(s.skip(end + 1) =~= rest);
    let bare = line + seq![10u8] + rest;
    lemma_position_is(bare, 10, line.len() as int);
    assert(bare.take(line.len() as int) =~= line);
    assert(bare.skip(line.len() as int + 1) =~= rest);
}

/// The content type of a field is the one that its header lines give. One that they
/// do not give is `application/octet-stream` for a field with a file name, and none
/// for any other. A field without a name is refused.
pub proof fn law_part_type(s: Seq<u8>)
    ensures
        match read_lines(PartHead { name: None, filename: None, content_type: None }, s) {
            Err(e) => part_head(s) == Err::<(Seq<u8>, Option<Seq<u8>>), _>(e),
            Ok(head) => {
                &&& head.name is None ==> part_head(s) == Err::<(Seq<u8>, Option<Seq<u8>>), _>(
                    MultipartFailure::Malformed("missing Content-Disposition name".spec_bytes()),
                )
                &&& head.name matches Some(name) ==> {
                    &&& part_head(s) matches Ok(known)
                    &&& known.0 == name
                    &&& head.content_type is Some ==> known.1 == head.content_type
                    &&& head.content_type is None && head.filename is Some ==> known.1 == Some(
                        "application/octet-stream".spec_bytes(),
                    )
                    &&& head.content_type is None && head.filename is None ==> known.1 is None
                }
            },
        },
{
    reveal(part_head);
}

/// No empty line stands in a field's header lines.
pub open spec fn one_block(header: Seq<u8>) -> bool {
    forall|j: int|
        0 <= j < header.len() ==> !#[trigger] occurs_at(
            header + "\r\n\r\n".spec_bytes(),
            "\r\n\r\n".spec_bytes(),
            j,
        )
}

proof fn lemma_block_end(header: Seq<u8>, rest: Seq<u8>)
    requires
        one_block(header),
    ensures
        first_at(header + "\r\n\r\n".spec_bytes() + rest, "\r\n\r\n".spec_bytes()) == Some(
            header.len() as int,
        ),
{
    let needle = "\r\n\r\n".spec_bytes();
    let closed = header + needle;
    let s = closed + rest;
    lemma_form_literals();
    assert(s.subrange(header.len() as int, header.len() as int + 4) =~= needle);
    assert forall|j: int| 0 <= j < header.len() implies !occurs_at(s, needle, j) by {
        if occurs_at(s, needle, j) {
            assert(closed.subrange(j, j + 4) =~= s.subrange(j, j + 4));
            assert(occurs_at(closed, needle, j));
        }
    }
    lemma_first_is(s, needle, header.len() as int);
}

/// One field of a form: its header lines, an empty line, its content, and the
/// delimiter. Two hyphens behind the delimiter end the form, a line end leads to
/// the next field if there is one, and anything else is refused.
#[verifier::spinoff_prover]
pub proof fn law_next_part(
    known: Seq<Part>,
    header: Seq<u8>,
    content: Seq<u8>,
    delimiter: Seq<u8>,
    behind: Seq<u8>,
)
    requires
        one_block(header),
        delimiter.len() > 0,
        delimiter[0] == 13,
        forall|i: int| 1 <= i < delimiter.len() ==> #[trigger] delimiter[i] != 13,
        !contains(content, delimiter),
    ensures
        ({
            let s = header + "\r\n\r\n".spec_bytes() + (content + delimiter + behind);
            match part_head(header) {
                Err(e) => read_parts(known, s, delimiter) == Err::<Seq<Part>, _>(e),
                Ok(head) => {
                    let all = put_part(
                        known,
                        Part { name: head.0, content_type: head.1, content },
                    );
                    &&& "--".spec_bytes().is_prefix_of(behind) ==> read_parts(known, s, delimiter)
                        == Ok::<_, MultipartFailure>(all)
                    &&& behind == "\r\n".spec_bytes() ==> read_parts(known, s, delimiter) == Ok::<
                        _,
                        MultipartFailure,
                    >(all)
                    &&& "\r\n".spec_bytes().is_prefix_of(behind) && behind.len() > 2 ==> read_parts(
                        known,
                        s,
                        delimiter,
                    ) == read_parts(all, behind.skip(2), delimiter)
                    &&& !"--".spec_bytes().is_prefix_of(behind)
                        && !"\r\n".spec_bytes().is_prefix_of(behind) ==> read_parts(
                        known,
                        s,
                        delimiter,
                    ) == Err::<Seq<Part>, _>(
                        MultipartFailure::Malformed("boundary line missing CRLF".spec_bytes()),
                    )
                },
            }
        }),
{
    let blank = "\r\n\r\n".spec_bytes();
    lemma_form_literals();
    let tail = content + delimiter + behind;
    let s = header + blank + tail;
    lemma_block_end(header, tail);
    assert(s.take(header.len() as int) =~= header);
    let rest = s.skip(header.len() as int + 4);
    assert(rest =~= tail);
    lemma_content_end(content, delimiter, behind);
    assert(rest.take(content.len() as int) =~= content);
    assert(rest.skip(content.len() as int + delimiter.len()) =~= behind);
    if "\r\n".spec_bytes().is_prefix_of(behind) {
        assert(behind.subrange(0, 2)[0] == behind[0]);
        assert(!"--".spec_bytes().is_prefix_of(behind)) by {
            if "--".spec_bytes().is_prefix_of(behind) {
                assert(behind.subrange(0, 2)[0] == behind[0]);
            }
        }
    }
}

/// A field without an empty line behind its header lines is refused, and so is one
/// without a delimiter behind its content.
pub proof fn law_broken_part(
    known: Seq<Part>,
    s: Seq<u8>,
    header: Seq<u8>,
    content: Seq<u8>,
    delimiter: Seq<u8>,
)
    requires
        one_block(header),
    ensures
        !contains(s, "\r\n\r\n".spec_bytes()) ==> read_parts(known, s, delimiter) == Err::<
            Seq<Part>,
            _,
        >(MultipartFailure::Malformed("headers missing CRLFCRLF".spec_bytes())),
        !contains(content, delimiter) && part_head(header) is Ok ==> read_parts(
            known,
            header + "\r\n\r\n".spec_bytes() + content,
            delimiter,
        ) == Err::<Seq<Part>, _>(
            MultipartFailure::Malformed("next boundary not found".spec_bytes()),
        ),
{
    lemma_first_at(s, "\r\n\r\n".spec_bytes());
    let whole = header + "\r\n\r\n".spec_bytes() + content;
    lemma_form_literals();
    lemma_block_end(header, content);
    assert(whole.take(header.len() as int) =~= header);
    assert(whole.skip(header.len() as int + 4) =~= content);
    lemma_first_at(content, delimiter);
}

/// A form starts behind the first boundary line, whatever stands before it, and
/// without one it is refused.
pub proof fn law_form_start(front: Seq<u8>, boundary: Seq<u8>, rest: Seq<u8>, s: Seq<u8>)
    requires
        forall|j: int|
            0 <= j < front.len() ==> !#[trigger] occurs_at(
                front + ("--".spec_bytes() + boundary + "\r\n".spec_bytes()) + rest,
                "--".spec_bytes() + boundary + "\r\n".spec_bytes(),
                j,
            ),
    ensures
        parse_multipart(
            front + ("--".spec_bytes() + boundary + "\r\n".spec_bytes()) + rest,
            boundary,
        ) == read_parts(Seq::empty(), rest, "\r\n--".spec_bytes() + boundary),
        parse_multipart(s, boundary) == Err::<Seq<Part>, _>(MultipartFailure::MissingBoundary)
            <== !contains(s, "--".spec_bytes() + boundary + "\r\n".spec_bytes()),
{
    let opening = "--".spec_bytes() + boundary + "\r\n".spec_bytes();
    let whole = front + opening + rest;
    let at = front.len() as int;
    assert(whole.subrange(at, at + opening.len()) =~= opening);
    lemma_first_is(whole, opening, at);
    assert(whole.skip(at + opening.len()) =~= rest);
    lemma_first_at(s, opening);
}

/// The boundary of a content type is what follows `boundary=` in the first of its
/// parameters that starts with that; there is none where none does.
pub proof fn law_boundary(param: Seq<u8>, rest: Seq<u8>)
    requires
        forall|i: int| 0 <= i < param.len() ==> #[trigger] param[i] != 59,
    ensures
        ({
            let text = strip_text(param);
            let named = "boundary=".spec_bytes().is_prefix_of(text);
            &&& named ==> text == "boundary=".spec_bytes() + boundary_in(param)
            &&& named ==> boundary_in(param + seq![59u8] + rest) == boundary_in(param)
            &&& !named ==> boundary_in(param + seq![59u8] + rest) == boundary_in(rest)
            &&& !named ==> boundary_in(param).len() == 0
        }),
{
    let s = param + seq![59u8] + rest;
    lemma_position_is(param, 59, param.len() as int);
    lemma_position_is(s, 59, param.len() as int);
    assert(param.take(param.len() as int) =~= param);
    assert(s.take(param.len() as int) =~= param);
    assert(s.skip(param.len() as int + 1) =~= rest);
    let text = strip_text(param);
    let label = "boundary=".spec_bytes();
    if label.is_prefix_of(text) {
        assert(text.subrange(0, label.len() as int) == label);
        assert(text =~= label + text.skip(label.len() as int));
    }
}

// ── Forms with files ───────────────────────────────────────────────────────

/// A field as a form is written from it: perhaps with a file name, perhaps with a
/// content type.
pub struct FormField {
    pub name: Seq<u8>,
    pub filename: Option<Seq<u8>>,
    pub content_type: Option<Seq<u8>>,
    pub content: Seq<u8>,
}

/// A text that can stand between quotes in a disposition.
pub open spec fn quotable(s: Seq<u8>) -> bool {
    &&& valid_utf8(s)
    &&& forall|i: int| 0 <= i < s.len() ==> #[trigger] s[i] != 59 && s[i] != 13 && s[i] != 10
}

/// A field that stays the same in a form: its names can stand between quotes, and
/// a content type is one line that is not empty and has no white space around it.
pub open spec fn sendable(f: FormField) -> bool {
    &&& quotable(f.name)
    &&& f.filename matches Some(v) ==> quotable(v)
    &&& f.content_type matches Some(c) ==> valid_utf8(c) && c.len() > 0 && strip_text(c) == c && (
    forall|i: int| 0 <= i < c.len() ==> #[trigger] c[i] != 13 && c[i] != 10)
}

/// The line that names a field and, where it has one, its file.
pub open spec fn naming_line(f: FormField) -> Seq<u8> {
    disposition_line(f.name) + (match f.filename {
        Some(v) => "; filename=\"".spec_bytes() + v + "\"".spec_bytes(),
        None => Seq::empty(),
    })
}

/// The header lines of a field.
pub open spec fn field_header(f: FormField) -> Seq<u8> {
    naming_line(f) + (match f.content_type {
        Some(c) => "\r\n".spec_bytes() + type_line(c),
        None => Seq::empty(),
    })
}

/// What follows the first boundary line of a form, from the field at `i` on.
pub open spec fn fields_text(fields: Seq<FormField>, i: int, boundary: Seq<u8>) -> Seq<u8>
    decreases fields.len() - i,
{
    if i < 0 || i >= fields.len() {
        Seq::empty()
    } else {
        field_header(fields[i]) + "\r\n\r\n".spec_bytes() + (fields[i].content + (
        "\r\n--".spec_bytes() + boundary) + (if i == fields.len() - 1 {
            "--".spec_bytes()
        } else {
            "\r\n".spec_bytes() + fields_text(fields, i + 1, boundary)
        }))
    }
}

proof fn lemma_quoted_param(head: PartHead, label: Seq<u8>, text: Seq<u8>)
    requires
        label == "name=".spec_bytes() || label == "filename=".spec_bytes(),
        quotable(text),
    ensures
        ({
            let param = seq![32u8] + label + seq![34u8] + text + seq![34u8];
            let after = read_disposition(head, param);
            &&& forall|i: int| 0 <= i < param.len() ==> #[trigger] param[i] != 59
            &&& label == "name=".spec_bytes() ==> after == PartHead { name: Some(text), ..head }
            &&& label == "filename=".spec_bytes() ==> after == PartHead {
                filename: Some(text),
                ..head
            }
            &&& valid_utf8(param)
        }),
{
    lemma_form_literals();
    let param = seq![32u8] + label + seq![34u8] + text + seq![34u8];
    let quoted = seq![34u8] + text + seq![34u8];
    let bare = label + quoted;
    let n = label.len() as int;
    assert(param =~= seq![32u8] + bare);
    assert forall|i: int| 0 <= i < param.len() implies #[trigger] param[i] != 59 by {
        if n + 2 <= i < n + 2 + text.len() {
            assert(param[i] == text[i - n - 2]);
        } else if 1 <= i < n + 1 {
            assert(param[i] == label[i - 1]);
        }
    }
    lemma_ascii_valid(label);
    lemma_ascii_valid(seq![34u8]);
    valid_utf8_concat(seq![34u8], text);
    valid_utf8_concat(seq![34u8] + text, seq![34u8]);
    valid_utf8_concat(label, quoted);
    lemma_strip_blank(bare);
    lemma_strip_same(bare);
    assert(bare.subrange(0, n) =~= label);
    assert(bare.skip(n) =~= quoted);
    law_unquoted(text);
    law_disposition(head, param, Seq::empty());
}

proof fn lemma_naming_params(head: PartHead, f: FormField)
    requires
        sendable(f),
    ensures
        valid_utf8(naming_value(f)),
        read_disposition(head, naming_value(f)) == (PartHead {
            name: Some(f.name),
            filename: if f.filename is Some {
                f.filename
            } else {
                head.filename
            },
            ..head
        }),
{
    lemma_form_literals();
    let plain = seq![102u8, 111, 114, 109, 45, 100, 97, 116, 97];
    let named = seq![32u8] + "name=".spec_bytes() + seq![34u8] + f.name + seq![34u8];
    let after = PartHead { name: Some(f.name), ..head };
    lemma_ascii_valid(plain);
    lemma_ascii_valid(seq![59u8]);
    lemma_ascii_valid(plain + seq![59u8]);
    lemma_strip_same(plain);
    assert(!"name=".spec_bytes().is_prefix_of(plain)) by {
        assert(plain.subrange(0, 5)[0] == 102);
    }
    assert(!"filename=".spec_bytes().is_prefix_of(plain)) by {
        assert(plain.subrange(0, 9)[1] == 111);
    }
    lemma_quoted_param(head, "name=".spec_bytes(), f.name);
    if let Some(v) = f.filename {
        let file = seq![32u8] + "filename=".spec_bytes() + seq![34u8] + v + seq![34u8];
        lemma_quoted_param(after, "filename=".spec_bytes(), v);
        assert(named + (seq![59u8] + file) =~= named + seq![59u8] + file);
        law_disposition(head, named, file);
        law_disposition(head, plain, named + (seq![59u8] + file));
        valid_utf8_concat(seq![59u8], file);
        valid_utf8_concat(named, seq![59u8] + file);
        valid_utf8_concat(plain + seq![59u8], named + (seq![59u8] + file));
    } else {
        law_disposition(head, plain, named);
        valid_utf8_concat(plain + seq![59u8], named);
    }
}

proof fn lemma_file_literal()
    ensures
        "; filename=\"".spec_bytes() == seq![59u8, 32] + "filename=".spec_bytes() + seq![34u8],
{
    lemma_form_literals();
    reveal_strlit("; filename=\"");
    assert(is_ascii("; filename=\""));
    assert("; filename=\"".spec_bytes() =~= seq![59u8, 32] + "filename=".spec_bytes() + seq![34u8]);
}

/// The value in the line that names a field.
spec fn naming_value(f: FormField) -> Seq<u8> {
    let plain = seq![102u8, 111, 114, 109, 45, 100, 97, 116, 97];
    let named = seq![32u8] + "name=".spec_bytes() + seq![34u8] + f.name + seq![34u8];
    let filed = seq![59u8] + (seq![32u8] + "filename=".spec_bytes() + seq![34u8]
        + f.filename->Some_0 + seq![34u8]);
    if f.filename is Some {
        plain + seq![59u8] + (named + filed)
    } else {
        plain + seq![59u8] + named
    }
}

proof fn lemma_naming_pieces(
    key: Seq<u8>,
    plain: Seq<u8>,
    label: Seq<u8>,
    name: Seq<u8>,
    other: Seq<u8>,
    file: Seq<u8>,
)
    ensures
        key + (seq![58u8, 32u8] + plain + seq![59u8, 32u8] + label + seq![34u8]) + name + seq![
            34u8,
        ] == key + seq![58u8] + (seq![32u8] + (plain + seq![59u8] + (seq![32u8] + label + seq![34u8]
            + name + seq![34u8]))),
        key + (seq![58u8, 32u8] + plain + seq![59u8, 32u8] + label + seq![34u8]) + name + seq![34u8]
            + (seq![59u8, 32u8] + other + seq![34u8] + file + seq![34u8]) == key + seq![58u8] + (
        seq![32u8] + (plain + seq![59u8] + ((seq![32u8] + label + seq![34u8] + name + seq![34u8]) + (
        seq![59u8] + (seq![32u8] + other + seq![34u8] + file + seq![34u8]))))),
{
    assert(key + (seq![58u8, 32u8] + plain + seq![59u8, 32u8] + label + seq![34u8]) + name + seq![
        34u8,
    ] =~= key + seq![58u8] + (seq![32u8] + (plain + seq![59u8] + (seq![32u8] + label + seq![34u8]
        + name + seq![34u8]))));
    assert(key + (seq![58u8, 32u8] + plain + seq![59u8, 32u8] + label + seq![34u8]) + name + seq![
        34u8,
    ] + (seq![59u8, 32u8] + other + seq![34u8] + file + seq![34u8]) =~= key + seq![58u8] + (
    seq![32u8] + (plain + seq![59u8] + ((seq![32u8] + label + seq![34u8] + name + seq![34u8]) + (
    seq![59u8] + (seq![32u8] + other + seq![34u8] + file + seq![34u8]))))));
}

#[verifier::spinoff_prover]
proof fn lemma_naming_text(f: FormField)
    ensures
        naming_line(f) == "Content-Disposition".spec_bytes() + seq![58u8] + (seq![32u8]
            + naming_value(f)),
{
    let key = "Content-Disposition".spec_bytes();
    let plain = seq![102u8, 111, 114, 109, 45, 100, 97, 116, 97];
    let label = "name=".spec_bytes();
    let other = "filename=".spec_bytes();
    lemma_file_literal();
    assert("\"".spec_bytes() == seq![34u8]) by {
        lemma_form_literals();
    }
    assert(": form-data; name=\"".spec_bytes() == seq![58u8, 32u8] + plain + seq![59u8, 32u8]
        + label + seq![34u8]) by {
        lemma_form_literals();
        assert(": form-data; name=\"".spec_bytes() =~= seq![58u8, 32u8] + plain + seq![59u8, 32u8]
            + label + seq![34u8]);
    }
    lemma_naming_pieces(key, plain, label, f.name, other, f.filename->Some_0);
    if f.filename is None {
        assert(naming_line(f) =~= disposition_line(f.name));
    }
}

proof fn lemma_naming_ends(f: FormField)
    ensures
        naming_value(f).len() > 0,
        naming_value(f)[0] == 102,
        naming_value(f).last() == 34,
{
}

#[verifier::spinoff_prover]
proof fn lemma_naming_line(head: PartHead, f: FormField)
    requires
        sendable(f),
    ensures
        read_line(head, naming_line(f)) == Ok::<_, MultipartFailure>(
            PartHead {
                name: Some(f.name),
                filename: if f.filename is Some {
                    f.filename
                } else {
                    head.filename
                },
                ..head
            },
        ),
{
    lemma_naming_params(head, f);
    lemma_naming_text(f);
    lemma_naming_ends(f);
    let key = "Content-Disposition".spec_bytes();
    let value = naming_value(f);
    let padded = seq![32u8] + value;
    lemma_strip_blank(value);
    lemma_strip_same(value);
    lemma_disposition_key();
    valid_utf8_concat(key + seq![58u8], padded);
    law_part_line(head, key, padded);
}

proof fn lemma_disposition_key()
    ensures
        strip_text("Content-Disposition".spec_bytes()) == "Content-Disposition".spec_bytes(),
        valid_utf8("Content-Disposition".spec_bytes() + seq![58u8]),
        forall|i: int|
            0 <= i < "Content-Disposition".spec_bytes().len()
                ==> #[trigger] "Content-Disposition".spec_bytes()[i] != 58,
{
    lemma_form_literals();
    let key = "Content-Disposition".spec_bytes();
    lemma_ascii_valid(key);
    lemma_strip_same(key);
    lemma_ascii_valid(key + seq![58u8]);
}

proof fn lemma_naming_unbroken(f: FormField, b: u8)
    requires
        sendable(f),
        b == 13 || b == 10,
    ensures
        forall|i: int| 0 <= i < naming_line(f).len() ==> #[trigger] naming_line(f)[i] != b,
        naming_line(f).len() > 0,
{
    lemma_form_literals();
    lemma_file_literal();
    lemma_line_unbroken(f.name, b);
    let line = naming_line(f);
    let n = disposition_line(f.name).len() as int;
    assert forall|i: int| 0 <= i < line.len() implies #[trigger] line[i] != b by {
        if i < n {
            assert(line[i] == disposition_line(f.name)[i]);
        } else {
            let v = f.filename->Some_0;
            let label = "; filename=\"".spec_bytes();
            assert(label.len() == 12);
            let k = i - n;
            let tail = label + v + "\"".spec_bytes();
            assert(line[i] == tail[k]);
            if k < 12 {
                assert(tail[k] == label[k]);
            } else if k < 12 + v.len() {
                assert(tail[k] == v[k - 12]);
            }
        }
    }
}

#[verifier::spinoff_prover]
proof fn lemma_field_header(f: FormField)
    requires
        sendable(f),
    ensures
        part_head(field_header(f)) == Ok::<_, MultipartFailure>(
            (
                f.name,
                match f.content_type {
                    Some(c) => Some(c),
                    None => if f.filename is Some {
                        Some("application/octet-stream".spec_bytes())
                    } else {
                        None
                    },
                },
            ),
        ),
{
    lemma_form_literals();
    let start = PartHead { name: None, filename: None, content_type: None };
    let line = naming_line(f);
    let named = PartHead { name: Some(f.name), filename: f.filename, content_type: None };
    lemma_naming_line(start, f);
    lemma_naming_unbroken(f, 10);
    law_part_type(field_header(f));
    if let Some(c) = f.content_type {
        lemma_type_unbroken(c, 10);
        lemma_type_line(named, c);
        assert(field_header(f) =~= line + seq![13u8, 10u8] + type_line(c));
        law_part_lines(start, line, type_line(c));
        law_part_lines(named, type_line(c), Seq::empty());
    } else {
        assert(field_header(f) =~= line);
        law_part_lines(start, line, Seq::empty());
    }
}

#[verifier::spinoff_prover]
proof fn lemma_field_one_block(f: FormField)
    requires
        sendable(f),
    ensures
        one_block(field_header(f)),
{
    lemma_form_literals();
    let first = naming_line(f);
    let header = field_header(f);
    let needle = "\r\n\r\n".spec_bytes();
    let s = header + needle;
    lemma_naming_unbroken(f, 13);
    let n = first.len() as int;
    assert forall|j: int| 0 <= j < header.len() implies !#[trigger] occurs_at(s, needle, j) by {
        if occurs_at(s, needle, j) {
            let found = s.subrange(j, j + 4);
            assert(found[0] == s[j] && found[2] == s[j + 2]);
            assert(s[j] == header[j]);
            if j < n {
                assert(header[j] == first[j]);
            } else {
                let c = f.content_type->Some_0;
                let second = type_line(c);
                lemma_type_unbroken(c, 13);
                assert(header =~= first + seq![13u8, 10u8] + second);
                if j == n {
                    assert(header[j + 2] == second[0]);
                    assert(s[j + 2] == header[j + 2]);
                } else if j > n + 1 {
                    assert(header[j] == second[j - n - 2]);
                }
            }
        }
    }
}

/// The field that is read where `f` was written.
pub open spec fn part_of(f: FormField) -> Part {
    Part {
        name: f.name,
        content_type: match f.content_type {
            Some(c) => Some(c),
            None => if f.filename is Some {
                Some("application/octet-stream".spec_bytes())
            } else {
                None
            },
        },
        content: f.content,
    }
}

proof fn lemma_fields_read(fields: Seq<FormField>, i: int, boundary: Seq<u8>, known: Seq<Part>)
    requires
        0 <= i < fields.len(),
        known.len() == i,
        forall|k: int| 0 <= k < i ==> #[trigger] known[k] == part_of(fields[k]),
        forall|j: int, k: int|
            0 <= j < k < fields.len() ==> (#[trigger] fields[j]).name != (#[trigger] fields[k]).name,
        forall|k: int| 0 <= k < fields.len() ==> sendable(#[trigger] fields[k]),
        forall|k: int|
            0 <= k < fields.len() ==> !contains(
                (#[trigger] fields[k]).content,
                "\r\n--".spec_bytes() + boundary,
            ),
        forall|k: int| 0 <= k < boundary.len() ==> #[trigger] boundary[k] != 13,
    ensures
        ({
            let read = read_parts(
                known,
                fields_text(fields, i, boundary),
                "\r\n--".spec_bytes() + boundary,
            );
            read is Ok && read->Ok_0.len() == fields.len() && forall|k: int|
                0 <= k < fields.len() ==> #[trigger] read->Ok_0[k] == part_of(fields[k])
        }),
    decreases fields.len() - i,
{
    let f = fields[i];
    let delimiter = "\r\n--".spec_bytes() + boundary;
    let last = i == fields.len() - 1;
    let behind = if last {
        "--".spec_bytes()
    } else {
        "\r\n".spec_bytes() + fields_text(fields, i + 1, boundary)
    };
    assert(sendable(f));
    lemma_form_literals();
    assert(delimiter.len() >= 4 && delimiter[0] == 13);
    assert forall|k: int| 1 <= k < delimiter.len() implies #[trigger] delimiter[k] != 13 by {
        if k >= 4 {
            assert(delimiter[k] == boundary[k - 4]);
        }
    }
    lemma_field_header(f);
    lemma_field_one_block(f);
    law_next_part(known, field_header(f), f.content, delimiter, behind);
    let part = part_of(f);
    assert forall|j: int| 0 <= j < known.len() implies (#[trigger] known[j]).name != part.name by {
        assert(known[j] == part_of(fields[j]));
        assert(fields[j].name != fields[i].name);
    }
    law_put_part(known, part, 0);
    let all = known.push(part);
    if last {
        assert(behind.subrange(0, 2) =~= "--".spec_bytes());
    } else {
        let next = fields_text(fields, i + 1, boundary);
        assert(behind.subrange(0, 2) =~= "\r\n".spec_bytes());
        assert(behind.skip(2) =~= next);
        assert(next.len() > 0);
        lemma_fields_read(fields, i + 1, boundary, all);
    }
}

/// A form with fields and files is read back as it was written: each field with its
/// name, its content byte for byte, and the content type that was written for it,
/// whether or not it has a file name. Only where none was written is a field with a
/// file name given one.
pub proof fn law_file_form_reads_back(fields: Seq<FormField>, boundary: Seq<u8>)
    requires
        fields.len() > 0,
        forall|j: int, k: int|
            0 <= j < k < fields.len() ==> (#[trigger] fields[j]).name != (#[trigger] fields[k]).name,
        forall|k: int| 0 <= k < fields.len() ==> sendable(#[trigger] fields[k]),
        forall|k: int|
            0 <= k < fields.len() ==> !contains(
                (#[trigger] fields[k]).content,
                "\r\n--".spec_bytes() + boundary,
            ),
        forall|k: int| 0 <= k < boundary.len() ==> #[trigger] boundary[k] != 13,
    ensures
        ({
            let read = parse_multipart(
                "--".spec_bytes() + boundary + "\r\n".spec_bytes() + fields_text(
                    fields,
                    0,
                    boundary,
                ),
                boundary,
            );
            &&& read is Ok
            &&& read->Ok_0.len() == fields.len()
            &&& forall|k: int|
                0 <= k < fields.len() ==> {
                    let part = #[trigger] read->Ok_0[k];
                    &&& part.name == fields[k].name
                    &&& part.content == fields[k].content
                    &&& fields[k].content_type is Some ==> part.content_type
                        == fields[k].content_type
                    &&& fields[k].content_type is None && fields[k].filename is Some
                        ==> part.content_type == Some("application/octet-stream".spec_bytes())
                    &&& fields[k].content_type is None && fields[k].filename is None
                        ==> part.content_type is None
                }
        }),
{
    let opening = "--".spec_bytes() + boundary + "\r\n".spec_bytes();
    let rest = fields_text(fields, 0, boundary);
    let nothing = Seq::<u8>::empty();
    assert(nothing + opening + rest =~= opening + rest);
    law_form_start(nothing, boundary, rest, nothing);
    lemma_fields_read(fields, 0, boundary, Seq::empty());
}

/// A JSON body is its text, of the content type of JSON.
pub proof fn law_json_content(text: Seq<u8>)
    ensures
        json_content(text).bytes == text,
        json_content(text).content_type == Some("application/json".spec_bytes()),
{
}

/// Each error stands for the failure of its own kind.
pub proof fn law_multipart_failures(e: MultipartError)
    ensures
        e is MissingBoundary ==> e@ is MissingBoundary,
        e matches MultipartError::Malformed(s) ==> e@ == MultipartFailure::Malformed(
            s.spec_bytes(),
        ),
        e matches MultipartError::Utf8(u) ==> e@ == (MultipartFailure::Utf8 {
            valid_up_to: valid_up_to(u),
        }),
{
}

/// The field that is found under a name is the first with that name, and none is
/// found where no field has it.
pub proof fn law_part_found(parts: Seq<Part>, name: Seq<u8>, i: int)
    ensures
        0 <= i < parts.len() && parts[i].name == name && (forall|j: int|
            0 <= j < i ==> (#[trigger] parts[j]).name != name) ==> part_index(parts, name) == i,
        (forall|j: int| 0 <= j < parts.len() ==> (#[trigger] parts[j]).name != name) ==> part_index(
            parts,
            name,
        ) == parts.len(),
{
    lemma_part_index(parts, name);
}

} // verus!
