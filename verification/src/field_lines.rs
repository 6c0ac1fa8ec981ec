//! Header fields.

use crate::outside::{
    bytes_mut_extend, bytes_mut_freeze, bytes_mut_with_capacity, octets, octets_mut, str_from_utf8,
};
use crate::text::{
    after, blank, equal_ignoring_case, lemma_lower_twice, lemma_lower_valid, lemma_position, lemma_position_is,
    lower_all, lower_byte, position, position_of, rest_after, same_ignoring_case, trim_ascii,
    trim_end, trim_start, trimmed,
};
use bytes::{Bytes, BytesMut};
use vstd::prelude::*;
use vstd::slice::slice_subrange;
use vstd::string::{is_ascii, StringSliceAdditionalSpecFns};
use vstd::utf8::*;

verus! {

/// A header field: its name and its value, in UTF-8.
pub type Field = (Seq<u8>, Seq<u8>);

/// The index of the first field called `name` in any case, or the number of
/// fields where there is none.
pub open spec fn field_index(fields: Seq<Field>, name: Seq<u8>) -> int
    decreases fields.len(),
{
    if fields.len() == 0 {
        0
    } else if same_ignoring_case(fields[0].0, name) {
        0
    } else {
        1 + field_index(fields.skip(1), name)
    }
}

/// The value of the field called `name` in any case.
pub open spec fn field_value(fields: Seq<Field>, name: Seq<u8>) -> Option<Seq<u8>> {
    let i = field_index(fields, name);
    if i < fields.len() {
        Some(fields[i].1)
    } else {
        None
    }
}

/// The fields after one more line `name: value`: a name that is there already
/// gets the value appended behind a comma, a new one goes to the end, in lower
/// case.
pub open spec fn add_field(fields: Seq<Field>, name: Seq<u8>, value: Seq<u8>) -> Seq<Field> {
    let i = field_index(fields, name);
    if i < fields.len() {
        fields.update(i, (fields[i].0, fields[i].1 + ", ".spec_bytes() + value))
    } else {
        fields.push((lower_all(name), value))
    }
}

/// The fields without the one called `name` in any case.
pub open spec fn drop_field(fields: Seq<Field>, name: Seq<u8>) -> Seq<Field> {
    let i = field_index(fields, name);
    if i < fields.len() {
        fields.remove(i)
    } else {
        fields
    }
}

/// Fields as they are kept: text, names in lower case, no name twice.
pub open spec fn well_kept(fields: Seq<Field>) -> bool {
    &&& forall|i: int| #![trigger fields[i]]
        0 <= i < fields.len() ==> valid_utf8(fields[i].0) && valid_utf8(fields[i].1) && lower_all(
            fields[i].0,
        ) == fields[i].0
    &&& forall|i: int, j: int|
        0 <= i < j < fields.len() ==> (#[trigger] fields[i]).0 != (#[trigger] fields[j]).0
}

/// The fields as they go on the wire, one `name: value` line each.
pub open spec fn field_block(fields: Seq<Field>) -> Seq<u8>
    decreases fields.len(),
{
    if fields.len() == 0 {
        Seq::empty()
    } else {
        field_block(fields.drop_last()) + field_line(fields.last())
    }
}

/// One field as a line on the wire.
pub open spec fn field_line(field: Field) -> Seq<u8> {
    field.0 + ": ".spec_bytes() + field.1 + "\r\n".spec_bytes()
}

/// How many bytes of a header block stand before the line ends that close it.
pub open spec fn block_end(s: Seq<u8>) -> int {
    let n = s.len() as int;
    if n >= 4 && s[n - 4] == 13 && s[n - 3] == 10 && s[n - 2] == 13 && s[n - 1] == 10 {
        n - 4
    } else if n >= 2 && (s[n - 2] == 10 || s[n - 2] == 13) && s[n - 1] == 10 {
        n - 2
    } else if n >= 1 && s[n - 1] == 10 {
        n - 1
    } else {
        n
    }
}

/// The field that a line holds: what stands before its first colon and what
/// stands behind it, both without surrounding blanks. A line without a colon,
/// without a name, or with a part that is not UTF-8 holds none.
pub open spec fn line_field(line: Seq<u8>) -> Option<Field> {
    let colon = position(line, 58);
    if colon == line.len() {
        None
    } else {
        let name = trimmed(line.take(colon), true);
        let value = trimmed(line.skip(colon + 1), true);
        if name.len() > 0 && valid_utf8(name) && valid_utf8(value) {
            Some((name, value))
        } else {
            None
        }
    }
}

/// `fields` and, added to them line by line, those that the lines of `s` hold.
pub open spec fn fields_of_lines(fields: Seq<Field>, s: Seq<u8>) -> Seq<Field>
    decreases s.len(),
{
    if s.len() == 0 {
        fields
    } else {
        proof {
            lemma_position(s, 10);
        }
        let end = position(s, 10);
        let next = match line_field(s.take(end)) {
            Some(f) => add_field(fields, f.0, f.1),
            None => fields,
        };
        fields_of_lines(next, rest_after(s, end))
    }
}

/// The fields that a header block holds.
pub open spec fn parse_fields(s: Seq<u8>) -> Seq<Field> {
    fields_of_lines(Seq::empty(), s.take(block_end(s)))
}

/// `field_index` is the least index at which the name stands.
pub proof fn lemma_field_index(fields: Seq<Field>, name: Seq<u8>)
    ensures
        0 <= field_index(fields, name) <= fields.len(),
        field_index(fields, name) < fields.len() ==> same_ignoring_case(
            fields[field_index(fields, name)].0,
            name,
        ),
        forall|j: int|
            0 <= j < field_index(fields, name) ==> !same_ignoring_case(
                (#[trigger] fields[j]).0,
                name,
            ),
    decreases fields.len(),
{
    if fields.len() > 0 && !same_ignoring_case(fields[0].0, name) {
        lemma_field_index(fields.skip(1), name);
        assert forall|j: int| 0 <= j < field_index(fields, name) implies !same_ignoring_case(
            (#[trigger] fields[j]).0,
            name,
        ) by {
            if j > 0 {
                assert(fields.skip(1)[j - 1] == fields[j]);
            }
        }
    }
}

/// Where `i` is the least index at which the name stands, it is `field_index`.
proof fn lemma_field_index_is(fields: Seq<Field>, name: Seq<u8>, i: int)
    requires
        0 <= i <= fields.len(),
        i < fields.len() ==> same_ignoring_case(fields[i].0, name),
        forall|j: int| 0 <= j < i ==> !same_ignoring_case((#[trigger] fields[j]).0, name),
    ensures
        field_index(fields, name) == i,
{
    lemma_field_index(fields, name);
}

/// Adding a field keeps the fields well kept.
pub proof fn lemma_add_well_kept(fields: Seq<Field>, name: Seq<u8>, value: Seq<u8>)
    requires
        well_kept(fields),
        valid_utf8(name),
        valid_utf8(value),
    ensures
        well_kept(add_field(fields, name, value)),
{
    lemma_field_index(fields, name);
    let i = field_index(fields, name);
    if i < fields.len() {
        encode_utf8_valid_utf8(", "@);
        valid_utf8_concat(fields[i].1, ", ".spec_bytes());
        valid_utf8_concat(fields[i].1 + ", ".spec_bytes(), value);
    } else {
        lemma_lower_valid(name);
        lemma_lower_twice(name);
        let after = add_field(fields, name, value);
        assert forall|a: int, b: int| 0 <= a < b < after.len() implies (#[trigger] after[a]).0 != (
        #[trigger] after[b]).0 by {
            if b == fields.len() {
                assert(!same_ignoring_case(fields[a].0, name));
            }
        }
    }
}

/// The header fields of a message. All text is kept in one arena; each header
/// is the place of its name and the place of its value in it.
pub struct FieldLines {
    arena: Vec<u8>,
    headers: Vec<(usize, usize, usize, usize)>,
}

impl View for FieldLines {
    type V = Seq<Field>;

    closed spec fn view(&self) -> Seq<Field> {
        fields_in(self.arena@, self.headers@)
    }
}

/// The fields that the places in `headers` cut out of `arena`.
spec fn fields_in(arena: Seq<u8>, headers: Seq<(usize, usize, usize, usize)>) -> Seq<Field> {
    headers.map_values(|h: (usize, usize, usize, usize)| cut(arena, h))
}

spec fn cut(arena: Seq<u8>, h: (usize, usize, usize, usize)) -> Field {
    (arena.subrange(h.0 as int, h.0 + h.1), arena.subrange(h.2 as int, h.2 + h.3))
}

spec fn within(arena: Seq<u8>, h: (usize, usize, usize, usize)) -> bool {
    h.0 + h.1 <= arena.len() && h.2 + h.3 <= arena.len()
}

impl FieldLines {
    /// Every place lies within the arena, and the fields are well kept.
    pub closed spec fn wf(&self) -> bool {
        &&& forall|i: int| 0 <= i < self.headers@.len() ==> within(self.arena@, #[trigger] self.headers@[i])
        &&& well_kept(self@)
    }

    /// Header fields are always well kept: texts, with names in lower case that
    /// differ.
    pub proof fn law_well_kept(&self)
        requires
            self.wf(),
        ensures
            well_kept(self@),
    {
    }

    pub fn new() -> (r: FieldLines)
        ensures
            r.wf(),
            r@ == Seq::<Field>::empty(),
    {
        let r = FieldLines { arena: Vec::new(), headers: Vec::new() };
        assert(r@ =~= Seq::<Field>::empty());
        r
    }

    fn name_at(&self, i: usize) -> (r: &[u8])
        requires
            self.wf(),
            i < self.headers@.len(),
        ensures
            r@ == self@[i as int].0,
    {
        let h = self.headers[i];
        assert(within(self.arena@, self.headers@[i as int]) && self.arena.len() <= usize::MAX);
        slice_subrange(self.arena.as_slice(), h.0, h.0 + h.1)
    }

    fn value_at(&self, i: usize) -> (r: &[u8])
        requires
            self.wf(),
            i < self.headers@.len(),
        ensures
            r@ == self@[i as int].1,
    {
        let h = self.headers[i];
        assert(within(self.arena@, self.headers@[i as int]) && self.arena.len() <= usize::MAX);
        slice_subrange(self.arena.as_slice(), h.2, h.2 + h.3)
    }

    /// The index of the header called `name` in any case, or the number of
    /// headers where there is none.
    fn index_of(&self, name: &[u8]) -> (r: usize)
        requires
            self.wf(),
        ensures
            r == field_index(self@, name@),
            r <= self.headers@.len(),
    {
        let n: usize = self.headers.len();
        let mut i: usize = 0;
        while i < n
            invariant
                self.wf(),
                n == self.headers@.len(),
                i <= n,
                forall|j: int| 0 <= j < i ==> !same_ignoring_case((#[trigger] self@[j]).0, name@),
            decreases n - i,
        {
            if equal_ignoring_case(self.name_at(i), name) {
                proof {
                    lemma_field_index_is(self@, name@, i as int);
                }
                return i;
            }
            i += 1;
        }
        proof {
            lemma_field_index_is(self@, name@, n as int);
        }
        n
    }

    /// Adds one field, given as UTF-8.
    fn add_line(&mut self, name: &[u8], value: &[u8])
        requires
            old(self).wf(),
            valid_utf8(name@),
            valid_utf8(value@),
        ensures
            final(self).wf(),
            final(self)@ == add_field(old(self)@, name@, value@),
    {
        proof {
            lemma_add_well_kept(self@, name@, value@);
        }
        let ghost fields = self@;
        let ghost arena = self.arena@;
        let ghost headers = self.headers@;
        let idx: usize = self.index_of(name);
        if idx < self.headers.len() {
            let h = self.headers[idx];
            let new_at: usize = self.arena.len();
            assert(within(arena, headers[idx as int]));
            for j in 0..h.3
                invariant
                    new_at == arena.len(),
                    h.2 + h.3 <= arena.len(),
                    self.headers@ == headers,
                    self.arena@ == arena + arena.subrange(h.2 as int, h.2 + j),
            {
                let b: u8 = self.arena[h.2 + j];
                self.arena.push(b);
                assert(self.arena@ =~= arena + arena.subrange(h.2 as int, h.2 + j + 1));
            }
            self.arena.extend_from_slice(", ".as_bytes());
            self.arena.extend_from_slice(value);
            let ghost joined = fields[idx as int].1 + ", ".spec_bytes() + value@;
            assert(self.arena@ =~= arena + joined);
            let new_len: usize = self.arena.len() - new_at;
            self.headers.set(idx, (h.0, h.1, new_at, new_len));
            assert forall|i: int| 0 <= i < headers.len() implies within(
                self.arena@,
                #[trigger] self.headers@[i],
            ) by {
                assert(within(arena, headers[i]));
            }
            assert(self@ =~= add_field(fields, name@, value@)) by {
                assert forall|i: int| 0 <= i < headers.len() implies #[trigger] self@[i]
                    == add_field(fields, name@, value@)[i] by {
                    assert(within(arena, headers[i]));
                    assert(cut(self.arena@, headers[i]).0 =~= cut(arena, headers[i]).0);
                    assert(cut(self.arena@, headers[i]).1 =~= cut(arena, headers[i]).1);
                    assert(self.arena@.subrange(new_at as int, new_at + new_len) =~= joined);
                }
            }
        } else {
            let name_at: usize = self.arena.len();
            for j in 0..name.len()
                invariant
                    self.headers@ == headers,
                    self.arena@ == arena + lower_all(name@.take(j as int)),
            {
                self.arena.push(lower_byte(name[j]));
                assert(self.arena@ =~= arena + lower_all(name@.take(j + 1)));
            }
            assert(name@.take(name@.len() as int) =~= name@);
            let value_at: usize = self.arena.len();
            self.arena.extend_from_slice(value);
            assert(self.arena@ =~= arena + lower_all(name@) + value@);
            self.headers.push((name_at, name.len(), value_at, value.len()));
            assert forall|i: int| 0 <= i < self.headers@.len() implies within(
                self.arena@,
                #[trigger] self.headers@[i],
            ) by {
                if i < headers.len() {
                    assert(within(arena, headers[i]));
                }
            }
            assert(self@ =~= add_field(fields, name@, value@)) by {
                assert forall|i: int| 0 <= i < self.headers@.len() implies #[trigger] self@[i]
                    == add_field(fields, name@, value@)[i] by {
                    if i < headers.len() {
                        assert(within(arena, headers[i]));
                        assert(cut(self.arena@, headers[i]).0 =~= cut(arena, headers[i]).0);
                        assert(cut(self.arena@, headers[i]).1 =~= cut(arena, headers[i]).1);
                    } else {
                        assert(self.arena@.subrange(name_at as int, name_at + name@.len())
                            =~= lower_all(name@));
                        assert(self.arena@.subrange(value_at as int, value_at + value@.len())
                            =~= value@);
                    }
                }
            }
        }
    }

    /// Adds one field.
    pub fn set(&mut self, key: &str, value: &str)
        requires
            old(self).wf(),
        ensures
            final(self).wf(),
            final(self)@ == add_field(old(self)@, key.spec_bytes(), value.spec_bytes()),
    {
        proof {
            encode_utf8_valid_utf8(key@);
            encode_utf8_valid_utf8(value@);
        }
        self.add_line(key.as_bytes(), value.as_bytes());
    }

    /// The value of the field called `key` in any case.
    pub fn get(&self, key: &str) -> (r: Option<&str>)
        requires
            self.wf(),
        ensures
            match r {
                Some(v) => field_value(self@, key.spec_bytes()) == Some(v.spec_bytes()),
                None => field_value(self@, key.spec_bytes()) is None,
            },
    {
        let i: usize = self.index_of(key.as_bytes());
        if i < self.headers.len() {
            assert(valid_utf8(self@[i as int].1));
            str_from_utf8(self.value_at(i)).ok()
        } else {
            None
        }
    }

    /// Takes the field called `key` in any case out, and returns its value.
    pub fn remove(&mut self, key: &str) -> (r: Option<String>)
        requires
            old(self).wf(),
        ensures
            final(self).wf(),
            final(self)@ == drop_field(old(self)@, key.spec_bytes()),
            match r {
                Some(v) => field_value(old(self)@, key.spec_bytes()) == Some(encode_utf8(v@)),
                None => field_value(old(self)@, key.spec_bytes()) is None,
            },
    {
        let i: usize = self.index_of(key.as_bytes());
        if i < self.headers.len() {
            let ghost before = *self;
            assert(valid_utf8(self@[i as int].1));
            let value: Option<String> = match str_from_utf8(self.value_at(i)) {
                Ok(s) => Some(s.to_owned()),
                Err(_) => None,
            };
            self.headers.remove(i);
            assert(self@ =~= before@.remove(i as int));
            assert forall|j: int| 0 <= j < self.headers@.len() implies within(
                self.arena@,
                #[trigger] self.headers@[j],
            ) by {
                if j < i {
                    assert(within(before.arena@, before.headers@[j]));
                } else {
                    assert(within(before.arena@, before.headers@[j + 1]));
                }
            }
            assert(well_kept(self@)) by {
                assert forall|a: int| 0 <= a < self@.len() implies {
                    let f = #[trigger] self@[a];
                    valid_utf8(f.0) && valid_utf8(f.1) && lower_all(f.0) == f.0
                } by {
                    let k = if a < i { a } else { a + 1 };
                    assert(self@[a] == before@[k]);
                }
                assert forall|a: int, b: int| 0 <= a < b < self@.len() implies (
                #[trigger] self@[a]).0 != (#[trigger] self@[b]).0 by {
                    let k = if a < i { a } else { a + 1 };
                    let l = if b < i { b } else { b + 1 };
                    assert(self@[a] == before@[k] && self@[b] == before@[l]);
                }
            }
            value
        } else {
            None
        }
    }

    /// The number of fields.
    pub fn len(&self) -> (r: usize)
        requires
            self.wf(),
        ensures
            r == self@.len(),
    {
        self.headers.len()
    }

    /// The fields in order, as text.
    pub fn iter(&self) -> (r: Vec<(&str, &str)>)
        requires
            self.wf(),
        ensures
            r@.len() == self@.len(),
            forall|i: int|
                0 <= i < r@.len() ==> (#[trigger] r@[i]).0.spec_bytes() == self@[i].0
                    && r@[i].1.spec_bytes() == self@[i].1,
    {
        let n: usize = self.headers.len();
        let mut r: Vec<(&str, &str)> = Vec::new();
        for i in 0..n
            invariant
                self.wf(),
                n == self.headers@.len(),
                r@.len() == i,
                forall|j: int|
                    0 <= j < i ==> (#[trigger] r@[j]).0.spec_bytes() == self@[j].0
                        && r@[j].1.spec_bytes() == self@[j].1,
        {
            assert(valid_utf8(self@[i as int].0) && valid_utf8(self@[i as int].1));
            if let Ok(name) = str_from_utf8(self.name_at(i)) {
                if let Ok(value) = str_from_utf8(self.value_at(i)) {
                    r.push((name, value));
                }
            }
        }
        r
    }

    /// The fields as they go on the wire.
    pub fn to_bytes(&self) -> (r: Bytes)
        requires
            self.wf(),
        ensures
            octets(r) == field_block(self@),
    {
        let n: usize = self.headers.len();
        let mut buf: BytesMut = bytes_mut_with_capacity(1024);
        for i in 0..n
            invariant
                self.wf(),
                n == self.headers@.len(),
                octets_mut(buf) == field_block(self@.take(i as int)),
        {
            let ghost before = octets_mut(buf);
            bytes_mut_extend(&mut buf, self.name_at(i));
            bytes_mut_extend(&mut buf, ": ".as_bytes());
            bytes_mut_extend(&mut buf, self.value_at(i));
            bytes_mut_extend(&mut buf, "\r\n".as_bytes());
            assert(octets_mut(buf) =~= before + field_line(self@[i as int]));
            assert(self@.take(i + 1).drop_last() =~= self@.take(i as int));
        }
        assert(self@.take(n as int) =~= self@);
        bytes_mut_freeze(buf)
    }

    /// The fields that a header block holds.
    pub fn from(bytes: &[u8]) -> (r: FieldLines)
        ensures
            r.wf(),
            r@ == parse_fields(bytes@),
    {
        let n: usize = bytes.len();
        let end: usize = if n >= 4 && bytes[n - 4] == 13 && bytes[n - 3] == 10 && bytes[n - 2] == 13
            && bytes[n - 1] == 10 {
            n - 4
        } else if n >= 2 && (bytes[n - 2] == 10 || bytes[n - 2] == 13) && bytes[n - 1] == 10 {
            n - 2
        } else if n >= 1 && bytes[n - 1] == 10 {
            n - 1
        } else {
            n
        };
        let block = slice_subrange(bytes, 0, end);
        assert(block@ =~= bytes@.take(block_end(bytes@)));
        let mut r = FieldLines::new();
        let mut rest: &[u8] = block;
        while rest.len() > 0
            invariant
                r.wf(),
                fields_of_lines(r@, rest@) == fields_of_lines(Seq::empty(), block@),
            decreases rest@.len(),
        {
            let line_end: usize = position_of(rest, 10);
            let line = slice_subrange(rest, 0, line_end);
            assert(line@ =~= rest@.take(line_end as int));
            let colon: usize = position_of(line, 58);
            if colon < line.len() {
                let before = slice_subrange(line, 0, colon);
                let behind = slice_subrange(line, colon + 1, line.len());
                assert(before@ =~= line@.take(colon as int));
                assert(behind@ =~= line@.skip(colon + 1));
                let name = trim_ascii(before, true);
                let value = trim_ascii(behind, true);
                if name.len() > 0 && str_from_utf8(name).is_ok() && str_from_utf8(value).is_ok() {
                    r.add_line(name, value);
                }
            }
            rest = after(rest, line_end);
        }
        assert(rest@ =~= Seq::<u8>::empty());
        r
    }
}

// ── Laws ───────────────────────────────────────────────────────────────────

/// A field is found by its name in any case.
pub proof fn law_any_case(fields: Seq<Field>, name: Seq<u8>, other: Seq<u8>)
    requires
        same_ignoring_case(name, other),
    ensures
        field_value(fields, name) == field_value(fields, other),
{
    lemma_field_index(fields, name);
    lemma_field_index_is(fields, other, field_index(fields, name));
}

/// A field that has been added has the value that was given, behind the value
/// that it had before, if it had one; every other field has the value that it
/// had.
pub proof fn law_added_field(fields: Seq<Field>, name: Seq<u8>, value: Seq<u8>, other: Seq<u8>)
    ensures
        field_value(add_field(fields, name, value), name) == Some(
            match field_value(fields, name) {
                Some(v) => v + ", ".spec_bytes() + value,
                None => value,
            },
        ),
        !same_ignoring_case(name, other) ==> field_value(add_field(fields, name, value), other)
            == field_value(fields, other),
{
    let added = add_field(fields, name, value);
    let i = field_index(fields, name);
    lemma_field_index(fields, name);
    lemma_lower_twice(name);
    assert forall|j: int| 0 <= j < i implies !same_ignoring_case((#[trigger] added[j]).0, name) by {
        assert(added[j].0 == fields[j].0);
    }
    lemma_field_index_is(added, name, i);
    if !same_ignoring_case(name, other) {
        let k = field_index(fields, other);
        lemma_field_index(fields, other);
        assert forall|j: int| 0 <= j < k implies !same_ignoring_case(
            (#[trigger] added[j]).0,
            other,
        ) by {
            assert(added[j].0 == fields[j].0);
        }
        if k < fields.len() {
            assert(k != i);
            lemma_field_index_is(added, other, k);
        } else {
            lemma_field_index_is(added, other, added.len() as int);
        }
    }
}

/// A field that has been taken out is gone; every other field has the value that
/// it had.
pub proof fn law_dropped_field(fields: Seq<Field>, name: Seq<u8>, other: Seq<u8>)
    requires
        well_kept(fields),
    ensures
        field_value(drop_field(fields, name), name) is None,
        !same_ignoring_case(name, other) ==> field_value(drop_field(fields, name), other)
            == field_value(fields, other),
{
    let left = drop_field(fields, name);
    let i = field_index(fields, name);
    lemma_field_index(fields, name);
    lemma_field_index(fields, other);
    if i < fields.len() {
        assert forall|j: int| 0 <= j < left.len() implies !same_ignoring_case(
            (#[trigger] left[j]).0,
            name,
        ) by {
            let k = if j < i {
                j
            } else {
                j + 1
            };
            assert(left[j] == fields[k]);
            assert(fields[k].0 != fields[i].0);
        }
        lemma_field_index_is(left, name, left.len() as int);
        if !same_ignoring_case(name, other) {
            let k = field_index(fields, other);
            let at = if k > i {
                k - 1
            } else {
                k
            };
            assert(k != i);
            assert forall|j: int| 0 <= j < at implies !same_ignoring_case(
                (#[trigger] left[j]).0,
                other,
            ) by {
                if j < i {
                    assert(left[j] == fields[j]);
                } else {
                    assert(left[j] == fields[j + 1]);
                }
            }
            if k < fields.len() {
                assert(left[at] == fields[k]);
            }
            lemma_field_index_is(left, other, at);
        }
    }
}

/// A field that stays the same on the wire: the name is not empty and has no
/// colon, neither has a line feed, and neither has blanks around it.
pub open spec fn clean(field: Field) -> bool {
    &&& field.0.len() > 0
    &&& forall|i: int| 0 <= i < field.0.len() ==> #[trigger] field.0[i] != 10 && field.0[i] != 58
    &&& forall|i: int| 0 <= i < field.1.len() ==> #[trigger] field.1[i] != 10
    &&& trimmed(field.0, true) == field.0
    &&& trimmed(field.1, true) == field.1
}

proof fn lemma_trim_shrinks(s: Seq<u8>)
    ensures
        trim_start(s).len() <= s.len(),
        trim_end(s, true).len() <= s.len(),
    decreases s.len(),
{
    if s.len() > 0 {
        lemma_trim_shrinks(s.skip(1));
        lemma_trim_shrinks(s.drop_last());
    }
}

/// What is kept by trimming neither starts nor ends with what is trimmed.
proof fn lemma_trimmed(s: Seq<u8>)
    requires
        trimmed(s, true) == s,
    ensures
        s.len() > 0 ==> !blank(s[0]) && !blank(s.last()) && s.last() != 13,
{
    lemma_trim_shrinks(s);
    lemma_trim_shrinks(trim_start(s));
    if s.len() > 0 {
        if blank(s[0]) {
            lemma_trim_shrinks(s.skip(1));
        } else if blank(s.last()) || s.last() == 13 {
            lemma_trim_shrinks(s.drop_last());
        }
    }
}

/// A blank in front of a clean value and a carriage return behind it are trimmed
/// away.
proof fn lemma_value_trimmed(v: Seq<u8>, end: Seq<u8>)
    requires
        trimmed(v, true) == v,
        end == Seq::<u8>::empty() || end == seq![13u8],
    ensures
        trimmed(seq![32u8] + v + end, true) == v,
{
    lemma_trimmed(v);
    let s = seq![32u8] + v + end;
    assert(s.skip(1) =~= v + end);
    assert(trim_start(v + end) == v + end);
    assert(trim_start(s) == v + end);
    if end.len() > 0 {
        assert((v + end).drop_last() =~= v);
        assert(trim_end(v + end, true) == trim_end(v, true));
    } else {
        assert(v + end =~= v);
    }
    assert(trim_end(v, true) == v);
}

/// The line of a clean field, with or without a carriage return, holds it.
proof fn lemma_line_field(f: Field, end: Seq<u8>)
    requires
        clean(f),
        valid_utf8(f.0),
        valid_utf8(f.1),
        end == Seq::<u8>::empty() || end == seq![13u8],
    ensures
        line_field(f.0 + seq![58u8, 32u8] + f.1 + end) == Some(f),
{
    let line = f.0 + seq![58u8, 32u8] + f.1 + end;
    let n = f.0.len() as int;
    lemma_position(line, 58);
    assert(line[n] == 58);
    let colon = position(line, 58);
    if colon < n {
        assert(line[colon] == f.0[colon]);
    }
    assert(line.take(n) =~= f.0);
    assert(line.skip(n + 1) =~= seq![32u8] + f.1 + end);
    lemma_value_trimmed(f.1, end);
}

/// The lines of the fields from `i` on, without the last line end.
spec fn lines_from(fields: Seq<Field>, i: int) -> Seq<u8>
    decreases fields.len() - i,
{
    if i < 0 || i >= fields.len() {
        Seq::empty()
    } else if i == fields.len() - 1 {
        fields[i].0 + seq![58u8, 32u8] + fields[i].1
    } else {
        fields[i].0 + seq![58u8, 32u8] + fields[i].1 + seq![13u8] + seq![10u8] + lines_from(
            fields,
            i + 1,
        )
    }
}

proof fn lemma_literals()
    ensures
        ": ".spec_bytes() == seq![58u8, 32u8],
        "\r\n".spec_bytes() == seq![13u8, 10u8],
{
    reveal_strlit(": ");
    reveal_strlit("\r\n");
    assert(is_ascii(": ") && is_ascii("\r\n"));
    assert(": ".spec_bytes() =~= seq![58u8, 32u8]);
    assert("\r\n".spec_bytes() =~= seq![13u8, 10u8]);
}

proof fn lemma_block_lines(fields: Seq<Field>, i: int)
    requires
        0 <= i < fields.len(),
    ensures
        field_block(fields) == field_block(fields.take(i)) + lines_from(fields, i) + seq![
            13u8,
            10u8,
        ],
    decreases fields.len() - i,
{
    lemma_literals();
    let f = fields[i];
    let next = fields.take(i + 1);
    assert(next.drop_last() =~= fields.take(i));
    let line = f.0 + seq![58u8, 32u8] + f.1 + seq![13u8, 10u8];
    assert(field_block(next) == field_block(fields.take(i)) + line);
    if i == fields.len() - 1 {
        assert(next =~= fields);
        assert(line =~= lines_from(fields, i) + seq![13u8, 10u8]);
        assert(field_block(fields) =~= field_block(fields.take(i)) + lines_from(fields, i) + seq![
            13u8,
            10u8,
        ]);
    } else {
        lemma_block_lines(fields, i + 1);
        let rest = lines_from(fields, i + 1);
        assert(lines_from(fields, i) =~= line + rest);
        assert(field_block(fields.take(i)) + line + rest =~= field_block(fields.take(i)) + (line
            + rest));
    }
}

proof fn lemma_lines_read(fields: Seq<Field>, i: int)
    requires
        0 <= i < fields.len(),
        well_kept(fields),
        forall|k: int| 0 <= k < fields.len() ==> clean(#[trigger] fields[k]),
    ensures
        fields_of_lines(fields.take(i), lines_from(fields, i)) == fields,
    decreases fields.len() - i,
{
    let f = fields[i];
    assert(clean(f));
    let s = lines_from(fields, i);
    let bare = f.0 + seq![58u8, 32u8] + f.1;
    let known = fields.take(i);
    lemma_position(s, 10);
    let end = position(s, 10);
    assert forall|j: int| 0 <= j < bare.len() implies #[trigger] bare[j] != 10 by {
        if j < f.0.len() {
            assert(bare[j] == f.0[j]);
        } else if j >= f.0.len() + 2 {
            assert(bare[j] == f.1[j - f.0.len() - 2]);
        }
    }
    assert forall|j: int| 0 <= j < known.len() implies !same_ignoring_case(
        (#[trigger] known[j]).0,
        f.0,
    ) by {
        assert(known[j] == fields[j]);
        assert(fields[j].0 != fields[i].0);
    }
    lemma_field_index_is(known, f.0, i);
    assert(add_field(known, f.0, f.1) =~= fields.take(i + 1));
    if i == fields.len() - 1 {
        if end < s.len() {
            assert(s[end] == bare[end]);
        }
        assert(s.take(end) =~= bare + Seq::<u8>::empty());
        lemma_line_field(f, Seq::empty());
        assert(fields.take(i + 1) =~= fields);
        assert(rest_after(s, end) =~= Seq::<u8>::empty());
        assert(fields_of_lines(fields.take(i + 1), Seq::empty()) == fields.take(i + 1));
        assert(line_field(s.take(end)) == Some(f));
    } else {
        let line = bare + seq![13u8];
        let rest = lines_from(fields, i + 1);
        assert(s =~= line + seq![10u8] + rest);
        assert(s[line.len() as int] == 10);
        if end < line.len() {
            assert(s[end] == line[end]);
            if end < bare.len() {
                assert(s[end] == bare[end]);
            }
        }
        assert(s.take(end) =~= line);
        lemma_line_field(f, seq![13u8]);
        assert(rest_after(s, end) =~= rest);
        assert(line_field(s.take(end)) == Some(f));
        lemma_lines_read(fields, i + 1);
    }
}

/// Fields that were written and are clean are read back as they were, with or
/// without the empty line that closes a head.
pub proof fn law_fields_read_back(fields: Seq<Field>)
    requires
        well_kept(fields),
        forall|k: int| 0 <= k < fields.len() ==> clean(#[trigger] fields[k]),
    ensures
        parse_fields(field_block(fields)) == fields,
        parse_fields(field_block(fields) + "\r\n".spec_bytes()) == fields,
{
    let s = field_block(fields);
    let closed = s + "\r\n".spec_bytes();
    lemma_literals();
    if fields.len() == 0 {
        assert(s.take(block_end(s)) =~= Seq::<u8>::empty());
        assert(closed.take(block_end(closed)) =~= Seq::<u8>::empty());
        assert(fields =~= Seq::empty());
    } else {
        let last = fields.len() - 1;
        let n = s.len() as int;
        let f = fields[last];
        lemma_block_lines(fields, 0);
        lemma_block_lines(fields, last);
        assert(field_block(fields.take(0)) =~= Seq::<u8>::empty());
        assert(s =~= lines_from(fields, 0) + seq![13u8, 10u8]);
        assert(s[n - 2] == 13 && s[n - 1] == 10);
        assert(clean(f));
        let bare = f.0 + seq![58u8, 32u8] + f.1;
        assert(s =~= field_block(fields.take(last)) + bare + seq![13u8, 10u8]);
        assert(s[n - 3] == bare.last());
        if f.1.len() > 0 {
            assert(bare.last() == f.1[f.1.len() - 1]);
        } else {
            assert(bare.last() == 32);
        }
        assert(block_end(s) == n - 2);
        assert(s.take(n - 2) =~= lines_from(fields, 0));
        assert(block_end(closed) == n - 2);
        assert(closed.take(n - 2) =~= s.take(n - 2));
        lemma_lines_read(fields, 0);
        assert(fields.take(0) =~= Seq::empty());
    }
}

/// What trimming keeps holds no byte that was not there, and neither starts nor
/// ends with what is trimmed.
proof fn lemma_trim_end_keeps(s: Seq<u8>, b: u8)
    ensures
        (forall|i: int| 0 <= i < s.len() ==> #[trigger] s[i] != b) ==> forall|i: int|
            0 <= i < trim_end(s, true).len() ==> #[trigger] trim_end(s, true)[i] != b,
        trim_end(s, true).len() > 0 ==> s.len() > 0 && trim_end(s, true)[0] == s[0] && !blank(
            trim_end(s, true).last(),
        ) && trim_end(s, true).last() != 13,
    decreases s.len(),
{
    if s.len() > 0 && (blank(s.last()) || s.last() == 13) {
        lemma_trim_end_keeps(s.drop_last(), b);
        if forall|i: int| 0 <= i < s.len() ==> #[trigger] s[i] != b {
            assert forall|i: int| 0 <= i < s.drop_last().len() implies #[trigger] s.drop_last()[i]
                != b by {
                assert(s[i] != b);
            }
        }
    }
}

proof fn lemma_trim_start_keeps(s: Seq<u8>, b: u8)
    ensures
        (forall|i: int| 0 <= i < s.len() ==> #[trigger] s[i] != b) ==> forall|i: int|
            0 <= i < trim_start(s).len() ==> #[trigger] trim_start(s)[i] != b,
        trim_start(s).len() > 0 ==> !blank(trim_start(s)[0]),
    decreases s.len(),
{
    if s.len() > 0 && blank(s[0]) {
        lemma_trim_start_keeps(s.skip(1), b);
        if forall|i: int| 0 <= i < s.len() ==> #[trigger] s[i] != b {
            assert forall|i: int| 0 <= i < s.skip(1).len() implies #[trigger] s.skip(1)[i] != b by {
                assert(s[i + 1] != b);
            }
        }
    }
}

proof fn lemma_trim_keeps(s: Seq<u8>, b: u8)
    ensures
        (forall|i: int| 0 <= i < s.len() ==> #[trigger] s[i] != b) ==> forall|i: int|
            0 <= i < trimmed(s, true).len() ==> #[trigger] trimmed(s, true)[i] != b,
        trimmed(s, true).len() > 0 ==> !blank(trimmed(s, true)[0]) && !blank(
            trimmed(s, true).last(),
        ) && trimmed(s, true).last() != 13,
{
    lemma_trim_start_keeps(s, b);
    lemma_trim_end_keeps(trim_start(s), b);
}

/// A field whose name is clean, and whose value is but for a blank at its end.
spec fn nearly_clean(f: Field) -> bool {
    &&& f.0.len() > 0
    &&& forall|i: int| 0 <= i < f.0.len() ==> #[trigger] f.0[i] != 10 && f.0[i] != 58
    &&& !blank(f.0[0]) && !blank(f.0.last()) && f.0.last() != 13
    &&& forall|i: int| 0 <= i < f.1.len() ==> #[trigger] f.1[i] != 10
    &&& f.1.len() > 0 ==> !blank(f.1[0]) && f.1.last() != 13
}

proof fn lemma_line_nearly_clean(line: Seq<u8>)
    requires
        forall|i: int| 0 <= i < line.len() ==> #[trigger] line[i] != 10,
    ensures
        line_field(line) matches Some(f) ==> nearly_clean(f),
{
    let colon = position(line, 58);
    lemma_position(line, 58);
    if colon < line.len() {
        let left = line.take(colon);
        let right = line.skip(colon + 1);
        assert forall|i: int| 0 <= i < left.len() implies #[trigger] left[i] != 10 by {
            assert(line[i] != 10);
        }
        assert forall|i: int| 0 <= i < right.len() implies #[trigger] right[i] != 10 by {
            assert(line[colon + 1 + i] != 10);
        }
        assert forall|i: int| 0 <= i < left.len() implies #[trigger] left[i] != 58 by {
            assert(left[i] == line[i]);
        }
        lemma_trim_keeps(left, 10);
        lemma_trim_keeps(left, 58);
        lemma_trim_keeps(right, 10);
    }
}

proof fn lemma_add_nearly_clean(fields: Seq<Field>, f: Field)
    requires
        forall|k: int| 0 <= k < fields.len() ==> nearly_clean(#[trigger] fields[k]),
        nearly_clean(f),
    ensures
        forall|k: int|
            0 <= k < add_field(fields, f.0, f.1).len() ==> nearly_clean(
                #[trigger] add_field(fields, f.0, f.1)[k],
            ),
{
    lemma_field_index(fields, f.0);
    let i = field_index(fields, f.0);
    let all = add_field(fields, f.0, f.1);
    if i < fields.len() {
        reveal_strlit(", ");
        assert(is_ascii(", "));
        let comma = ", ".spec_bytes();
        assert(comma =~= seq![44u8, 32u8]);
        let was = fields[i].1;
        let v = was + comma + f.1;
        assert(nearly_clean(fields[i]));
        assert forall|k: int| 0 <= k < v.len() implies #[trigger] v[k] != 10 by {
            if k < was.len() {
                assert(v[k] == was[k]);
            } else if k >= was.len() + 2 {
                assert(v[k] == f.1[k - was.len() - 2]);
            }
        }
        if was.len() > 0 {
            assert(v[0] == was[0]);
        } else {
            assert(v[0] == 44);
        }
        if f.1.len() > 0 {
            assert(v.last() == f.1.last());
        } else {
            assert(v.last() == 32);
        }
        assert(all[i] == (fields[i].0, v));
        assert(nearly_clean(all[i]));
    } else {
        let name = lower_all(f.0);
        assert forall|k: int| 0 <= k < name.len() implies #[trigger] name[k] != 10 && name[k]
            != 58 by {
            assert(f.0[k] != 10 && f.0[k] != 58);
        }
        assert(nearly_clean((name, f.1)));
    }
}

proof fn lemma_lines_nearly_clean(fields: Seq<Field>, s: Seq<u8>)
    requires
        well_kept(fields),
        forall|k: int| 0 <= k < fields.len() ==> nearly_clean(#[trigger] fields[k]),
    ensures
        well_kept(fields_of_lines(fields, s)),
        forall|k: int|
            0 <= k < fields_of_lines(fields, s).len() ==> nearly_clean(
                #[trigger] fields_of_lines(fields, s)[k],
            ),
    decreases s.len(),
{
    if s.len() > 0 {
        lemma_position(s, 10);
        let end = position(s, 10);
        let line = s.take(end);
        assert forall|i: int| 0 <= i < line.len() implies #[trigger] line[i] != 10 by {
            assert(line[i] == s[i]);
        }
        lemma_line_nearly_clean(line);
        match line_field(line) {
            Some(f) => {
                lemma_add_well_kept(fields, f.0, f.1);
                lemma_add_nearly_clean(fields, f);
                lemma_lines_nearly_clean(add_field(fields, f.0, f.1), rest_after(s, end));
            },
            None => {
                lemma_lines_nearly_clean(fields, rest_after(s, end));
            },
        }
    }
}

/// A value does not end with a blank. Of the values that are read only those do
/// to which an empty one was appended.
pub open spec fn no_blank_end(field: Field) -> bool {
    field.1.len() > 0 ==> !blank(field.1.last())
}

/// Whatever is read is well kept, and clean where its value does not end with a
/// blank.
pub proof fn law_read_fields_clean(s: Seq<u8>)
    ensures
        well_kept(parse_fields(s)),
        forall|k: int|
            0 <= k < parse_fields(s).len() && no_blank_end(#[trigger] parse_fields(s)[k])
                ==> clean(parse_fields(s)[k]),
{
    let fields = parse_fields(s);
    lemma_lines_nearly_clean(Seq::empty(), s.take(block_end(s)));
    assert forall|k: int| 0 <= k < fields.len() && no_blank_end(#[trigger] fields[k]) implies clean(
        fields[k],
    ) by {
        let f = fields[k];
        assert(nearly_clean(f));
        assert(trim_start(f.0) == f.0);
        assert(trim_end(f.0, true) == f.0);
        assert(trim_start(f.1) == f.1);
        assert(trim_end(f.1, true) == f.1);
    }
}

/// Whatever was read stays the same when it is written and read again, where no
/// value ends with a blank.
pub proof fn law_read_again(s: Seq<u8>)
    requires
        forall|k: int| 0 <= k < parse_fields(s).len() ==> no_blank_end(#[trigger] parse_fields(s)[k]),
    ensures
        parse_fields(field_block(parse_fields(s))) == parse_fields(s),
        parse_fields(field_block(parse_fields(s)) + "\r\n".spec_bytes()) == parse_fields(s),
{
    law_read_fields_clean(s);
    law_fields_read_back(parse_fields(s));
}

/// The value under a name is that of the first field with that name in any case,
/// and there is none where no field has that name.
pub proof fn law_field_value(fields: Seq<Field>, name: Seq<u8>, i: int)
    ensures
        0 <= i < fields.len() && same_ignoring_case(fields[i].0, name) && (forall|j: int|
            0 <= j < i ==> !same_ignoring_case((#[trigger] fields[j]).0, name)) ==> field_value(
            fields,
            name,
        ) == Some(fields[i].1),
        (forall|j: int|
            0 <= j < fields.len() ==> !same_ignoring_case((#[trigger] fields[j]).0, name))
            ==> field_value(fields, name) is None,
{
    lemma_field_index(fields, name);
}

/// A field with a new name goes to the end, its name in lower case; one with a name
/// that is there stays where it was, with the value behind a comma.
pub proof fn law_added_place(fields: Seq<Field>, name: Seq<u8>, value: Seq<u8>, i: int)
    ensures
        (forall|j: int|
            0 <= j < fields.len() ==> !same_ignoring_case((#[trigger] fields[j]).0, name))
            ==> add_field(fields, name, value) == fields.push((lower_all(name), value)),
        0 <= i < fields.len() && same_ignoring_case(fields[i].0, name) && (forall|j: int|
            0 <= j < i ==> !same_ignoring_case((#[trigger] fields[j]).0, name)) ==> add_field(
            fields,
            name,
            value,
        ) == fields.take(i) + seq![(fields[i].0, fields[i].1 + ", ".spec_bytes() + value)]
            + fields.skip(i + 1),
{
    lemma_field_index(fields, name);
    if 0 <= i < fields.len() && same_ignoring_case(fields[i].0, name) && (forall|j: int|
        0 <= j < i ==> !same_ignoring_case((#[trigger] fields[j]).0, name)) {
        assert(field_index(fields, name) == i);
        assert(add_field(fields, name, value) =~= fields.take(i) + seq![
            (fields[i].0, fields[i].1 + ", ".spec_bytes() + value),
        ] + fields.skip(i + 1));
    }
}

/// Where a field is dropped, those before and behind it stay in order.
pub proof fn law_dropped_place(fields: Seq<Field>, name: Seq<u8>, i: int)
    ensures
        (forall|j: int|
            0 <= j < fields.len() ==> !same_ignoring_case((#[trigger] fields[j]).0, name))
            ==> drop_field(fields, name) == fields,
        0 <= i < fields.len() && same_ignoring_case(fields[i].0, name) && (forall|j: int|
            0 <= j < i ==> !same_ignoring_case((#[trigger] fields[j]).0, name)) ==> drop_field(
            fields,
            name,
        ) == fields.take(i) + fields.skip(i + 1),
{
    lemma_field_index(fields, name);
    if 0 <= i < fields.len() && same_ignoring_case(fields[i].0, name) && (forall|j: int|
        0 <= j < i ==> !same_ignoring_case((#[trigger] fields[j]).0, name)) {
        assert(field_index(fields, name) == i);
        assert(drop_field(fields, name) =~= fields.take(i) + fields.skip(i + 1));
    }
}

/// Fields go on the wire in order, each as its name, a colon, a space, its value
/// and a line end.
pub proof fn law_block_lines(a: Seq<Field>, b: Seq<Field>, name: Seq<u8>, value: Seq<u8>)
    ensures
        field_block(a + b) == field_block(a) + field_block(b),
        field_block(seq![(name, value)]) == name + ": ".spec_bytes() + value + "\r\n".spec_bytes(),
        field_block(Seq::empty()) == Seq::<u8>::empty(),
    decreases b.len(),
{
    let one = seq![(name, value)];
    assert(one.drop_last() =~= Seq::<Field>::empty());
    assert(field_block(Seq::<Field>::empty()) =~= Seq::<u8>::empty());
    assert(field_block(one) =~= name + ": ".spec_bytes() + value + "\r\n".spec_bytes());
    if b.len() == 0 {
        assert(a + b =~= a);
        assert(field_block(a) + field_block(b) =~= field_block(a));
    } else {
        law_block_lines(a, b.drop_last(), name, value);
        assert((a + b).drop_last() =~= a + b.drop_last());
        assert((a + b).last() == b.last());
        assert(field_block(a + b) =~= field_block(a) + field_block(b));
    }
}

/// The lines of a block are read one by one, after those before them.
proof fn lemma_last_line(fields: Seq<Field>, block: Seq<u8>, line: Seq<u8>)
    requires
        block.len() > 0 ==> block.last() == 10,
        forall|i: int| 0 <= i < line.len() ==> #[trigger] line[i] != 10,
    ensures
        fields_of_lines(fields, block + line) == (match line_field(line) {
            Some(f) => add_field(fields_of_lines(fields, block), f.0, f.1),
            None => fields_of_lines(fields, block),
        }),
    decreases block.len(),
{
    let s = block + line;
    if block.len() == 0 {
        assert(s =~= line);
        if line.len() > 0 {
            lemma_position_is(line, 10, line.len() as int);
            assert(line.take(line.len() as int) =~= line);
            assert(fields_of_lines(fields, line) == (match line_field(line) {
                Some(f) => add_field(fields, f.0, f.1),
                None => fields,
            })) by {
                assert(rest_after(line, line.len() as int) =~= Seq::<u8>::empty());
                let next = match line_field(line) {
                    Some(f) => add_field(fields, f.0, f.1),
                    None => fields,
                };
                assert(fields_of_lines(next, Seq::<u8>::empty()) == next);
            }
        } else {
            assert(line_field(line) is None);
        }
    } else {
        lemma_position(block, 10);
        let end = position(block, 10);
        if end == block.len() {
            assert(block[block.len() - 1] != 10);
        }
        lemma_position_is(s, 10, end);
        assert(s.take(end) =~= block.take(end));
        let behind = rest_after(block, end);
        assert(rest_after(s, end) =~= behind + line);
        let next = match line_field(block.take(end)) {
            Some(f) => add_field(fields, f.0, f.1),
            None => fields,
        };
        if behind.len() > 0 {
            assert(behind.last() == block.last());
        }
        lemma_last_line(next, behind, line);
    }
}

proof fn lemma_block_closed(block: Seq<u8>)
    ensures
        parse_fields(block + seq![13u8, 10, 13, 10]) == fields_of_lines(Seq::empty(), block),
{
    let s = block + seq![13u8, 10, 13, 10];
    assert(s.take(s.len() - 4) =~= block);
}

/// A header block is read line by line: a line with a name in front of its first
/// colon adds what stands behind the colon under that name, both without the
/// blanks around them, and any other line adds nothing.
pub proof fn law_header_line(block: Seq<u8>, name: Seq<u8>, value: Seq<u8>)
    requires
        block.len() > 0 ==> block.last() == 10,
        forall|i: int| 0 <= i < name.len() ==> #[trigger] name[i] != 10 && name[i] != 58,
        forall|i: int| 0 <= i < value.len() ==> #[trigger] value[i] != 10,
    ensures
        ({
            let end = seq![13u8, 10, 13, 10];
            let before = parse_fields(block + end);
            let key = trimmed(name, true);
            let text = trimmed(value, true);
            &&& parse_fields(block + name + end) == before
            &&& parse_fields(block + (name + seq![58u8] + value) + end) == (if key.len() > 0
                && valid_utf8(key) && valid_utf8(text) {
                add_field(before, key, text)
            } else {
                before
            })
        }),
{
    let end = seq![13u8, 10, 13, 10];
    let line = name + seq![58u8] + value;
    assert forall|i: int| 0 <= i < line.len() implies #[trigger] line[i] != 10 by {
        if i > name.len() {
            assert(line[i] == value[i - name.len() - 1]);
        }
    }
    lemma_block_closed(block);
    lemma_block_closed(block + name);
    lemma_block_closed(block + line);
    lemma_last_line(Seq::empty(), block, name);
    lemma_last_line(Seq::empty(), block, line);
    lemma_position_is(name, 58, name.len() as int);
    lemma_position_is(line, 58, name.len() as int);
    assert(line.take(name.len() as int) =~= name);
    assert(line.skip(name.len() as int + 1) =~= value);
}

/// A header block without lines holds nothing.
pub proof fn law_empty_block()
    ensures
        parse_fields(seq![13u8, 10, 13, 10]) == Seq::<Field>::empty(),
        parse_fields(Seq::empty()) == Seq::<Field>::empty(),
{
    assert(seq![13u8, 10, 13, 10].take(0) =~= Seq::<u8>::empty());
    assert(Seq::<u8>::empty().take(0) =~= Seq::<u8>::empty());
}

/// It makes no difference whether a block is closed by one line end or two, with
/// or without carriage returns, or not at all.
pub proof fn law_block_close(block: Seq<u8>)
    requires
        block.len() > 0 ==> block.last() != 10 && block.last() != 13,
    ensures
        parse_fields(block + seq![13u8, 10, 13, 10]) == parse_fields(block),
        parse_fields(block + seq![13u8, 10]) == parse_fields(block),
        parse_fields(block + seq![10u8, 10]) == parse_fields(block),
        parse_fields(block + seq![10u8]) == parse_fields(block),
{
    lemma_block_closed(block);
    let n = block.len() as int;
    let a = block + seq![13u8, 10];
    let b = block + seq![10u8, 10];
    let c = block + seq![10u8];
    assert(a.take(n) =~= block);
    assert(b.take(n) =~= block);
    assert(c.take(n) =~= block);
    assert(block.take(n) =~= block);
    if n > 0 {
        assert(a[n - 1] == block.last() && b[n - 1] == block.last() && c[n - 1] == block.last());
        assert(block_end(a) == n && block_end(b) == n && block_end(c) == n);
    } else {
        assert(block_end(a) == n && block_end(b) == n && block_end(c) == n);
    }
    assert(block_end(block) == n);
}

} // verus!
