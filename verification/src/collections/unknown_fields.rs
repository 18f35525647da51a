//! Defines the `UnknownFieldSet`, a set holding unknown fields as they were read from coded
//! readers.
//!
//! As APIs are updated, fields may be removed from or added to message definitions. A message
//! of an old version that meets fields it does not know can still read them, to give them back
//! through its unknown fields. Values for one field number can exist with several wire types
//! at once, so that all data is given back.

use vstd::prelude::*;
use vstd::bytes::*;
use crate::io::{
    FieldNumber, LengthBuilder, Tag, WireType, varint_bytes, varint_len, tag_value, lemma_varint_roundtrip,
};
use crate::io::write::{
    CodedWriter, parts_written, parts_bytes, parts_encodable, lemma_parts_written_append,
    lemma_parts_bytes_append, lemma_ok_unit, Error as WriteError, Result as WriteResult,
};
use crate::io::{tag_field, tag_wire_number, wire_type_from_number, valid_tag, valid_field_number, lemma_tag_parts};
use crate::io::read::{
    CodedReader, Error as ReadError, Result as ReadResult, varint_read, fixed_read,
    length_delimited_read, tag_read, same_state, eof, lemma_varint_read_len,
    lemma_length_delimited_read_len, UnknownFieldHandling, skip_read, lemma_varint_read_encoding, skipped,
    lemma_length_delimited_read_encoding,
};
use crate::raw::{Value, Uint64, Fixed64, Fixed32, Bytes, size_added, tag_bytes};
use crate::collections::lemma_parts_encodable_append;
use crate::Mergable;

verus! {

/// A map from field numbers to the index of their values in an unknown field set, held in a
/// `hashbrown::HashMap`.
#[verifier::external_body]
#[derive(Debug)]
pub struct FieldIndex {
    map: hashbrown::HashMap<u32, usize>,
}

/// What a field index maps each field number to.
pub uninterp spec fn index_contents(m: FieldIndex) -> Map<u32, usize>;

/// Makes an empty map with `hashbrown::HashMap::new`.
#[verifier::external_body]
pub(crate) fn index_new() -> (r: FieldIndex)
    ensures
        index_contents(r).dom() == Set::<u32>::empty(),
{
    FieldIndex { map: hashbrown::HashMap::new() }
}

/// Looks a field number up with `hashbrown::HashMap::get`, copying the index found.
#[verifier::external_body]
pub(crate) fn index_get(m: &FieldIndex, k: u32) -> (r: Option<usize>)
    ensures
        index_contents(*m).contains_key(k) ==> r == Some(index_contents(*m)[k]),
        !index_contents(*m).contains_key(k) ==> r is None,
{
    m.map.get(&k).copied()
}

/// Maps a field number to an index with `hashbrown::HashMap::insert`, replacing what it was
/// mapped to.
#[verifier::external_body]
pub(crate) fn index_insert(m: &mut FieldIndex, k: u32, v: usize)
    ensures
        index_contents(*final(m)) == index_contents(*old(m)).insert(k, v),
{
    m.map.insert(k, v);
}

/// Removes a field number from the map with `hashbrown::HashMap::remove`.
#[verifier::external_body]
fn index_remove(m: &mut FieldIndex, k: u32)
    ensures
        index_contents(*final(m)) == index_contents(*old(m)).remove(k),
{
    m.map.remove(&k);
}

/// Removes every field number from the map with `hashbrown::HashMap::clear`.
#[verifier::external_body]
fn index_clear(m: &mut FieldIndex)
    ensures
        index_contents(*final(m)).dom() == Set::<u32>::empty(),
{
    m.map.clear();
}

/// Copies the map with `hashbrown::HashMap::clone`.
#[verifier::external_body]
fn index_clone(m: &FieldIndex) -> (r: FieldIndex)
    ensures
        index_contents(r) == index_contents(*m),
{
    FieldIndex { map: m.map.clone() }
}

/// The view of an unknown field's value.
pub enum FieldValue {
    /// A varint value.
    Varint(u64),
    /// A 64-bit value.
    Bit64(u64),
    /// A length delimited series of bytes.
    LengthDelimited(Seq<u8>),
    /// A group of other fields: each field number with its values, in the order they came.
    Group(Seq<(u32, Seq<FieldValue>)>),
    /// A 32-bit value.
    Bit32(u32),
}

/// An unknown field in an `UnknownFieldSet`.
#[derive(Debug)]
pub enum UnknownField {
    /// A varint field value.
    Varint(u64),
    /// A 64-bit field value.
    Bit64(u64),
    /// A length delimited series of bytes.
    LengthDelimited(Vec<u8>),
    /// A group of other unknown fields.
    Group(UnknownFieldSet),
    /// A 32-bit field value.
    Bit32(u32),
}

/// The values of one field number in a set.
#[derive(Debug)]
pub struct FieldEntry {
    number: FieldNumber,
    values: Vec<UnknownField>,
}

/// A set of unknown fields encountered while parsing: for each field number, its values in
/// the order they were added.
#[derive(Debug)]
pub struct UnknownFieldSet {
    index: FieldIndex,
    entries: Vec<FieldEntry>,
}

/// The view of an unknown field.
pub open spec fn field_view(f: UnknownField) -> FieldValue
    decreases f,
{
    match f {
        UnknownField::Varint(v) => FieldValue::Varint(v),
        UnknownField::Bit64(v) => FieldValue::Bit64(v),
        UnknownField::LengthDelimited(b) => FieldValue::LengthDelimited(b@),
        UnknownField::Group(g) => FieldValue::Group(set_view(g)),
        UnknownField::Bit32(v) => FieldValue::Bit32(v),
    }
}

/// The views of a run of unknown fields.
pub open spec fn values_view(vs: Seq<UnknownField>) -> Seq<FieldValue>
    decreases vs,
{
    if vs.len() == 0 {
        Seq::empty()
    } else {
        values_view(vs.subrange(0, vs.len() - 1)).push(field_view(vs[vs.len() - 1]))
    }
}

/// The views of a run of entries: each field number with the views of its values.
pub closed spec fn entries_view(es: Seq<FieldEntry>) -> Seq<(u32, Seq<FieldValue>)>
    decreases es,
{
    if es.len() == 0 {
        Seq::empty()
    } else {
        entries_view(es.subrange(0, es.len() - 1)).push(entry_view(es[es.len() - 1]))
    }
}

/// The view of one entry.
pub closed spec fn entry_view(e: FieldEntry) -> (u32, Seq<FieldValue>)
    decreases e,
{
    (e.number@, values_view(e.values@))
}

/// The view of a set: each field number with its values, in the order the numbers were
/// first added.
pub closed spec fn set_view(s: UnknownFieldSet) -> Seq<(u32, Seq<FieldValue>)>
    decreases s,
{
    entries_view(s.entries@)
}

impl View for UnknownField {
    type V = FieldValue;

    open spec fn view(&self) -> FieldValue {
        field_view(*self)
    }
}

impl View for UnknownFieldSet {
    type V = Seq<(u32, Seq<FieldValue>)>;

    open spec fn view(&self) -> Seq<(u32, Seq<FieldValue>)> {
        set_view(*self)
    }
}

/// The index of the entry for field number `n` in the view of a set, or -1 if there is none.
pub open spec fn entry_index(es: Seq<(u32, Seq<FieldValue>)>, n: u32) -> int
    decreases es.len(),
{
    if es.len() == 0 {
        -1
    } else if es.last().0 == n {
        es.len() - 1
    } else {
        entry_index(es.drop_last(), n)
    }
}

/// Whether no two entries of the view of a set have the same field number.
pub open spec fn numbers_distinct(es: Seq<(u32, Seq<FieldValue>)>) -> bool {
    forall|a: int, b: int| 0 <= a < b < es.len() ==> #[trigger] es[a].0 != #[trigger] es[b].0
}

/// The values of field number `n` in the view of a set, empty if it has none.
pub open spec fn field_values(es: Seq<(u32, Seq<FieldValue>)>, n: u32) -> Seq<FieldValue> {
    let i = entry_index(es, n);
    if i >= 0 {
        es[i].1
    } else {
        Seq::empty()
    }
}

/// The view of a set after a value is added to field number `n`: to its entry if it has one,
/// else in a new entry at the end.
pub open spec fn view_push(es: Seq<(u32, Seq<FieldValue>)>, n: u32, v: FieldValue) -> Seq<(u32, Seq<FieldValue>)> {
    let i = entry_index(es, n);
    if i >= 0 {
        es.update(i, (n, es[i].1.push(v)))
    } else {
        es.push((n, seq![v]))
    }
}

/// The view of a set after field number `n` is removed: its entry, if it has one, is
/// replaced by the last entry.
pub open spec fn view_remove(es: Seq<(u32, Seq<FieldValue>)>, n: u32) -> Seq<(u32, Seq<FieldValue>)> {
    let i = entry_index(es, n);
    if i >= 0 {
        es.update(i, es.last()).drop_last()
    } else {
        es
    }
}

/// The entry index of a field number found at `i` among distinct numbers is `i`; a number
/// found nowhere has none.
pub proof fn lemma_entry_index(es: Seq<(u32, Seq<FieldValue>)>, n: u32, i: int)
    requires
        numbers_distinct(es),
    ensures
        0 <= i < es.len() && es[i].0 == n ==> entry_index(es, n) == i,
        (forall|j: int| 0 <= j < es.len() ==> es[j].0 != n) ==> entry_index(es, n) == -1,
        -1 <= entry_index(es, n) < es.len(),
        entry_index(es, n) >= 0 ==> es[entry_index(es, n)].0 == n,
    decreases es.len(),
{
    if es.len() > 0 {
        let d = es.drop_last();
        assert(numbers_distinct(d)) by {
            assert forall|a: int, b: int| 0 <= a < b < d.len() implies #[trigger] d[a].0 != #[trigger] d[b].0 by {
                assert(d[a] == es[a] && d[b] == es[b]);
            }
        }
        lemma_entry_index(d, n, i);
        if 0 <= i < es.len() && es[i].0 == n && i < es.len() - 1 {
            assert(es.last().0 != n) by {
                assert(es[i].0 != es[es.len() - 1].0);
            }
            assert(d[i] == es[i]);
        }
        if forall|j: int| 0 <= j < es.len() ==> es[j].0 != n {
            assert forall|j: int| 0 <= j < d.len() implies d[j].0 != n by {
                assert(d[j] == es[j]);
            }
            assert(es[es.len() - 1].0 != n);
        }
        if entry_index(es, n) >= 0 && es.last().0 != n {
            assert(d[entry_index(d, n)] == es[entry_index(d, n)]);
        }
    }
}

proof fn lemma_values_view(vs: Seq<UnknownField>)
    ensures
        values_view(vs).len() == vs.len(),
        forall|i: int| 0 <= i < vs.len() ==> #[trigger] values_view(vs)[i] == field_view(vs[i]),
    decreases vs.len(),
{
    if vs.len() > 0 {
        lemma_values_view(vs.subrange(0, vs.len() - 1));
        assert forall|i: int| 0 <= i < vs.len() implies #[trigger] values_view(vs)[i] == field_view(vs[i]) by {
            if i < vs.len() - 1 {
                assert(vs.subrange(0, vs.len() - 1)[i] == vs[i]);
            }
        }
    }
}

proof fn lemma_entries_view(es: Seq<FieldEntry>)
    ensures
        entries_view(es).len() == es.len(),
        forall|i: int| 0 <= i < es.len() ==> #[trigger] entries_view(es)[i] == entry_view(es[i]),
    decreases es.len(),
{
    if es.len() > 0 {
        lemma_entries_view(es.subrange(0, es.len() - 1));
        assert forall|i: int| 0 <= i < es.len() implies #[trigger] entries_view(es)[i] == entry_view(es[i]) by {
            if i < es.len() - 1 {
                assert(es.subrange(0, es.len() - 1)[i] == es[i]);
            }
        }
    }
}

/// Runs of unknown fields with the same views, element by element, have the same view.
proof fn lemma_values_view_ext(a: Seq<UnknownField>, b: Seq<UnknownField>)
    requires
        a.len() == b.len(),
        forall|i: int| 0 <= i < a.len() ==> field_view(#[trigger] a[i]) == field_view(b[i]),
    ensures
        values_view(a) == values_view(b),
{
    lemma_values_view(a);
    lemma_values_view(b);
    assert(values_view(a) =~= values_view(b));
}

/// Runs of entries with the same views, entry by entry, have the same view.
proof fn lemma_entries_view_ext(a: Seq<FieldEntry>, b: Seq<FieldEntry>)
    requires
        a.len() == b.len(),
        forall|i: int| 0 <= i < a.len() ==> entry_view(#[trigger] a[i]) == entry_view(b[i]),
    ensures
        entries_view(a) == entries_view(b),
{
    lemma_entries_view(a);
    lemma_entries_view(b);
    assert(entries_view(a) =~= entries_view(b));
}

impl UnknownFieldSet {
    #[verifier::type_invariant]
    closed spec fn inv(self) -> bool {
        &&& forall|i: int|
            0 <= i < self.entries@.len() ==> index_contents(self.index).contains_key(
                #[trigger] self.entries@[i].number@,
            ) && index_contents(self.index)[self.entries@[i].number@] == i
        &&& forall|k: u32|
            #[trigger] index_contents(self.index).contains_key(k) ==> index_contents(self.index)[k]
                < self.entries@.len() && self.entries@[index_contents(self.index)[k] as int].number@ == k
    }

    /// The facts of a set's view that its invariant gives.
    proof fn lemma_view_facts(&self)
        requires
            self.inv(),
        ensures
            self@.len() == self.entries@.len(),
            forall|i: int| 0 <= i < self.entries@.len() ==> #[trigger] self@[i] == entry_view(self.entries@[i]),
            forall|i: int| 0 <= i < self.entries@.len() ==> (#[trigger] self@[i]).0 == self.entries@[i].number@,
            numbers_distinct(self@),
    {
        reveal(set_view);
        lemma_entries_view(self.entries@);
        assert forall|i: int| 0 <= i < self.entries@.len() implies (#[trigger] self@[i]).0 == self.entries@[i].number@ by {
            reveal(entry_view);
        }
        assert forall|a: int, b: int| 0 <= a < b < self@.len() implies #[trigger] self@[a].0 != #[trigger] self@[b].0 by {
            reveal(entry_view);
            assert(self@[a].0 == self.entries@[a].number@);
            assert(self@[b].0 == self.entries@[b].number@);
        }
    }

    /// Creates a new, empty unknown field set.
    pub fn new() -> (r: UnknownFieldSet)
        ensures
            r@ == Seq::<(u32, Seq<FieldValue>)>::empty(),
    {
        let r = UnknownFieldSet { index: index_new(), entries: Vec::new() };
        proof {
            reveal(set_view);
            assert(r.entries@ =~= Seq::<FieldEntry>::empty());
        }
        r
    }

    /// Gets the number of fields present in this set.
    pub fn field_len(&self) -> (r: usize)
        ensures
            r == self@.len(),
    {
        proof {
            use_type_invariant(self);
            self.lemma_view_facts();
        }
        self.entries.len()
    }

    /// Returns the values of a field, in the order they were added; none for a field the set
    /// does not hold.
    pub fn values(&self, num: FieldNumber) -> (r: &[UnknownField])
        ensures
            values_view(r@) == field_values(self@, num@),
    {
        proof {
            use_type_invariant(self);
            self.lemma_view_facts();
        }
        match index_get(&self.index, num.get()) {
            Some(i) => {
                proof {
                    lemma_entry_index(self@, num@, i as int);
                    reveal(entry_view);
                }
                self.entries[i].values.as_slice()
            },
            None => {
                proof {
                    lemma_entry_index(self@, num@, -1);
                    lemma_values_view(Seq::<UnknownField>::empty());
                }
                let empty: &[UnknownField] = &[];
                empty
            },
        }
    }

    /// Adds a value to a field, after those it already holds.
    #[verifier::spinoff_prover]
    pub fn push_value(&mut self, num: FieldNumber, value: UnknownField)
        ensures
            final(self)@ == view_push(old(self)@, num@, value@),
    {
        let mut this = UnknownFieldSet::new();
        core::mem::swap(self, &mut this);
        proof {
            use_type_invariant(&this);
            this.lemma_view_facts();
        }
        let ghost old_view = this@;
        let UnknownFieldSet { index: mut index, entries: mut entries } = this;
        let ghost old_entries = entries@;
        let n = num.get();
        match index_get(&index, n) {
            Some(i) => {
                proof {
                    lemma_entry_index(old_view, n, i as int);
                    reveal(entry_view);
                }
                let ghost old_values = entries@[i as int].values@;
                entries[i].values.push(value);
                proof {
                    lemma_values_view(old_values);
                    lemma_values_view(old_values.push(value));
                    assert(values_view(old_values.push(value)) =~= values_view(old_values).push(field_view(value)));
                    lemma_entries_view(old_entries);
                    lemma_entries_view(entries@);
                    assert(entries@[i as int].number == old_entries[i as int].number);
                    assert forall|k: int| 0 <= k < entries@.len() implies (#[trigger] entries@[k]).number
                        == old_entries[k].number by {
                        if k != i {
                            assert(entries@[k] == old_entries[k]);
                        }
                    }
                }
                *self = UnknownFieldSet { index, entries };
                proof {
                    reveal(set_view);
                    assert(self@ =~= view_push(old_view, n, value@));
                }
            },
            None => {
                proof {
                    assert forall|j: int| 0 <= j < old_view.len() implies old_view[j].0 != n by {
                        if old_view[j].0 == n {
                            assert(index_contents(index).contains_key(old_entries[j].number@));
                        }
                    }
                    lemma_entry_index(old_view, n, -1);
                }
                let len = entries.len();
                let mut values = Vec::new();
                values.push(value);
                let ghost old_map = index_contents(index);
                index_insert(&mut index, n, len);
                entries.push(FieldEntry { number: num, values });
                proof {
                    lemma_values_view(values@);
                    assert(values_view(values@) =~= seq![field_view(value)]);
                    lemma_entries_view(old_entries);
                    lemma_entries_view(entries@);
                    assert forall|k: u32| #[trigger] index_contents(index).contains_key(k) implies index_contents(index)[k]
                        < entries@.len() && entries@[index_contents(index)[k] as int].number@ == k by {
                        if k != n {
                            assert(old_map.contains_key(k));
                            assert(entries@[old_map[k] as int] == old_entries[old_map[k] as int]);
                        }
                    }
                    assert forall|j: int| 0 <= j < entries@.len() implies index_contents(index).contains_key(
                        #[trigger] entries@[j].number@,
                    ) && index_contents(index)[entries@[j].number@] == j by {
                        if j < len {
                            assert(entries@[j] == old_entries[j]);
                        }
                    }
                }
                *self = UnknownFieldSet { index, entries };
                proof {
                    reveal(set_view);
                    reveal(entry_view);
                    assert(self@ =~= view_push(old_view, n, value@));
                }
            },
        }
    }
}

/// The parts an unknown field value with field number `n` is written as: its tag, then its
/// value; a group's fields come between its start and end tags.
pub open spec fn field_value_parts(n: u32, v: FieldValue) -> Seq<(bool, Seq<u8>)>
    decreases v,
{
    match v {
        FieldValue::Varint(x) => seq![(true, tag_bytes(n, WireType::Varint)), (true, varint_bytes(x))],
        FieldValue::Bit64(x) => seq![
            (true, tag_bytes(n, WireType::Bit64)),
            (true, spec_u64_to_le_bytes(x)),
        ],
        FieldValue::LengthDelimited(b) => seq![
            (true, tag_bytes(n, WireType::LengthDelimited)),
            (b.len() <= i32::MAX, varint_bytes(b.len() as u64) + b),
        ],
        FieldValue::Group(es) => seq![(true, tag_bytes(n, WireType::StartGroup))] + set_parts(es) + seq![
            (true, tag_bytes(n, WireType::EndGroup)),
        ],
        FieldValue::Bit32(x) => seq![
            (true, tag_bytes(n, WireType::Bit32)),
            (true, spec_u32_to_le_bytes(x)),
        ],
    }
}

/// The parts a run of values of field number `n` is written as, one after the other.
pub open spec fn field_values_parts(n: u32, vs: Seq<FieldValue>) -> Seq<(bool, Seq<u8>)>
    decreases vs,
{
    if vs.len() == 0 {
        Seq::empty()
    } else {
        field_values_parts(n, vs.subrange(0, vs.len() - 1)) + field_value_parts(n, vs[vs.len() - 1])
    }
}

/// The parts the view of a set is written as: each entry's values, entry after entry.
pub open spec fn set_parts(es: Seq<(u32, Seq<FieldValue>)>) -> Seq<(bool, Seq<u8>)>
    decreases es,
{
    if es.len() == 0 {
        Seq::empty()
    } else {
        set_parts(es.subrange(0, es.len() - 1)) + field_values_parts(es[es.len() - 1].0, es[es.len() - 1].1)
    }
}

proof fn lemma_take_step<T>(s: Seq<T>, i: int)
    requires
        0 <= i < s.len(),
    ensures
        s.take(i + 1).subrange(0, i) == s.take(i),
        s.take(i + 1)[i] == s[i],
        s.take(i + 1).len() == i + 1,
        s.take(i + 1) + s.skip(i + 1) == s,
{
    assert(s.take(i + 1).subrange(0, i) =~= s.take(i));
    assert(s.take(i + 1) + s.skip(i + 1) =~= s);
}

/// The parts of two runs of values of a field are those of the first, then the second.
pub proof fn lemma_field_values_parts_append(n: u32, a: Seq<FieldValue>, b: Seq<FieldValue>)
    ensures
        field_values_parts(n, a + b) == field_values_parts(n, a) + field_values_parts(n, b),
    decreases b.len(),
{
    if b.len() == 0 {
        assert(a + b =~= a);
        assert(field_values_parts(n, a) + field_values_parts(n, b) =~= field_values_parts(n, a));
    } else {
        let ab = a + b;
        assert(ab.subrange(0, ab.len() - 1) =~= a + b.subrange(0, b.len() - 1));
        assert(ab[ab.len() - 1] == b[b.len() - 1]);
        lemma_field_values_parts_append(n, a, b.subrange(0, b.len() - 1));
        assert(field_values_parts(n, a + b) =~= field_values_parts(n, a) + field_values_parts(n, b));
    }
}

/// The parts of two runs of entries are those of the first, then the second.
pub proof fn lemma_set_parts_append(a: Seq<(u32, Seq<FieldValue>)>, b: Seq<(u32, Seq<FieldValue>)>)
    ensures
        set_parts(a + b) == set_parts(a) + set_parts(b),
    decreases b.len(),
{
    if b.len() == 0 {
        assert(a + b =~= a);
        assert(set_parts(a) + set_parts(b) =~= set_parts(a));
    } else {
        let ab = a + b;
        assert(ab.subrange(0, ab.len() - 1) =~= a + b.subrange(0, b.len() - 1));
        assert(ab[ab.len() - 1] == b[b.len() - 1]);
        lemma_set_parts_append(a, b.subrange(0, b.len() - 1));
        assert(set_parts(a + b) =~= set_parts(a) + set_parts(b));
    }
}

/// Splits the parts of a set around the value at `(i, j)`: those before it, its own, and
/// those after it.
proof fn lemma_set_parts_split(es: Seq<(u32, Seq<FieldValue>)>, i: int, j: int)
    requires
        0 <= i < es.len(),
        0 <= j < es[i].1.len(),
    ensures
        set_parts(es) == set_parts(es.take(i)) + field_values_parts(es[i].0, es[i].1.take(j))
            + field_value_parts(es[i].0, es[i].1[j]) + (field_values_parts(es[i].0, es[i].1.skip(j + 1))
            + set_parts(es.skip(i + 1))),
{
    let vs = es[i].1;
    let n = es[i].0;
    let p1 = set_parts(es.take(i));
    let p2 = field_values_parts(n, vs.take(j));
    let p3 = field_value_parts(n, vs[j]);
    let p4 = field_values_parts(n, vs.skip(j + 1));
    let p5 = set_parts(es.skip(i + 1));
    lemma_take_step(es, i);
    lemma_set_parts_append(es.take(i + 1), es.skip(i + 1));
    assert(set_parts(es) == set_parts(es.take(i + 1)) + p5);
    assert(set_parts(es.take(i + 1)) == p1 + field_values_parts(n, vs));
    lemma_take_step(vs, j);
    lemma_field_values_parts_append(n, vs.take(j + 1), vs.skip(j + 1));
    assert(field_values_parts(n, vs) == field_values_parts(n, vs.take(j + 1)) + p4);
    assert(field_values_parts(n, vs.take(j + 1)) == p2 + p3);
    assert(set_parts(es) == p1 + (p2 + p3 + p4) + p5);
    assert(p1 + (p2 + p3 + p4) + p5 =~= p1 + p2 + p3 + (p4 + p5));
}

/// The parts of a set split around the value at `(i, j)`, with the facts a loop over the set's
/// values needs at that value.
proof fn lemma_step_parts(es: Seq<(u32, Seq<FieldValue>)>, i: int, j: int)
    requires
        0 <= i < es.len(),
        0 <= j < es[i].1.len(),
    ensures
        ({
            let n = es[i].0;
            let vs = es[i].1;
            let before = set_parts(es.take(i));
            let done = before + field_values_parts(n, vs.take(j));
            let cur = field_value_parts(n, vs[j]);
            let rest = field_values_parts(n, vs.skip(j + 1)) + set_parts(es.skip(i + 1));
            &&& set_parts(es) == done + cur + rest
            &&& before + field_values_parts(n, vs.take(j + 1)) == done + cur
            &&& parts_bytes(done + cur).len() == parts_bytes(done).len() + parts_bytes(cur).len()
            &&& parts_bytes(set_parts(es)).len() == parts_bytes(done + cur).len() + parts_bytes(rest).len()
            &&& parts_encodable(done + cur) == (parts_encodable(done) && parts_encodable(cur))
            &&& parts_encodable(set_parts(es)) == (parts_encodable(done + cur) && parts_encodable(rest))
        }),
{
    let n = es[i].0;
    let vs = es[i].1;
    let before = set_parts(es.take(i));
    let done = before + field_values_parts(n, vs.take(j));
    let cur = field_value_parts(n, vs[j]);
    let rest = field_values_parts(n, vs.skip(j + 1)) + set_parts(es.skip(i + 1));
    lemma_set_parts_split(es, i, j);
    assert(set_parts(es) =~= done + cur + rest);
    lemma_take_step(vs, j);
    assert(field_values_parts(n, vs.take(j + 1)) == field_values_parts(n, vs.take(j)) + cur);
    assert(before + field_values_parts(n, vs.take(j + 1)) =~= done + cur);
    lemma_parts_prefix(done, cur);
    lemma_parts_prefix(done + cur, rest);
}

/// A run of parts that starts another can be written, and is no longer, if the other can.
proof fn lemma_parts_prefix(p: Seq<(bool, Seq<u8>)>, q: Seq<(bool, Seq<u8>)>)
    ensures
        parts_bytes(p + q).len() == parts_bytes(p).len() + parts_bytes(q).len(),
        parts_encodable(p + q) == (parts_encodable(p) && parts_encodable(q)),
{
    lemma_parts_bytes_append(p, q);
    lemma_parts_encodable_append(p, q);
}

impl UnknownFieldSet {
    /// Adds the size of all the fields in this set to the builder.
    #[verifier::spinoff_prover]
    pub fn calculate_size(&self, builder: LengthBuilder) -> (r: Option<LengthBuilder>)
        ensures
            size_added(
                builder@ as int,
                parts_encodable(set_parts(self@)),
                parts_bytes(set_parts(self@)).len() as int,
                r,
            ),
        decreases self@, 1nat,
    {
        proof {
            use_type_invariant(self);
            self.lemma_view_facts();
        }
        let ghost es = self@;
        let mut b = builder;
        let mut i: usize = 0;
        while i < self.entries.len()
            invariant
                es == self@,
                es.len() == self.entries@.len(),
                forall|k: int| 0 <= k < self.entries@.len() ==> #[trigger] es[k] == entry_view(self.entries@[k]),
                i <= self.entries@.len(),
                b@ == builder@ + parts_bytes(set_parts(es.take(i as int))).len(),
                parts_encodable(set_parts(es.take(i as int))),
            decreases self.entries@.len() - i,
        {
            let entry = &self.entries[i];
            let num = entry.number;
            let ghost vs = es[i as int].1;
            let ghost before = set_parts(es.take(i as int));
            proof {
                reveal(entry_view);
                lemma_values_view(entry.values@);
                lemma_take_step(es, i as int);
                assert(vs.take(0) =~= Seq::<FieldValue>::empty());
                assert(before + field_values_parts(num@, vs.take(0)) =~= before);
            }
            let mut j: usize = 0;
            while j < entry.values.len()
                invariant
                    es == self@,
                    0 <= i < es.len(),
                    vs == es[i as int].1,
                    vs == values_view(entry.values@),
                    vs.len() == entry.values@.len(),
                    forall|k: int| 0 <= k < entry.values@.len() ==> #[trigger] vs[k] == field_view(entry.values@[k]),
                    num@ == es[i as int].0,
                    before == set_parts(es.take(i as int)),
                    j <= entry.values@.len(),
                    b@ == builder@ + parts_bytes(before + field_values_parts(num@, vs.take(j as int))).len(),
                    parts_encodable(before + field_values_parts(num@, vs.take(j as int))),
                decreases entry.values@.len() - j,
            {
                proof {
                    lemma_step_parts(es, i as int, j as int);
                }
                match add_field_value_size(b, num, &entry.values[j]) {
                    Some(n) => {
                        b = n;
                    },
                    None => {
                        return None;
                    },
                }
                j = j + 1;
            }
            proof {
                assert(vs.take(j as int) =~= vs);
                lemma_take_step(es, i as int);
                assert(set_parts(es.take(i + 1)) == before + field_values_parts(num@, vs));
            }
            i = i + 1;
        }
        proof {
            assert(es.take(i as int) =~= es);
        }
        Some(b)
    }
}

/// Adds the size of a value of field number `num` to the builder: its tag and value, or for a
/// group its tags and fields.
fn add_field_value_size(b: LengthBuilder, num: FieldNumber, value: &UnknownField) -> (r: Option<LengthBuilder>)
    ensures
        size_added(
            b@ as int,
            parts_encodable(field_value_parts(num@, value@)),
            parts_bytes(field_value_parts(num@, value@)).len() as int,
            r,
        ),
    decreases value@, 0nat,
{
    let ghost p = field_value_parts(num@, value@);
    proof {
        reveal_with_fuel(parts_bytes, 3);
    }
    match value {
        UnknownField::Varint(v) => {
            proof {
                assert(p.drop_first().drop_first() =~= Seq::<(bool, Seq<u8>)>::empty());
                assert(p[0].0 && p[1].0);
                assert(parts_bytes(p) =~= p[0].1 + p[1].1);
                lemma_varint_roundtrip(tag_value(num@, WireType::Varint) as u64);
                assert(value@ == FieldValue::Varint(*v));
                assert(p == seq![(true, tag_bytes(num@, WireType::Varint)), (true, varint_bytes(*v))]);
                assert(parts_bytes(p).len() == varint_len(tag_value(num@, WireType::Varint) as u64) + varint_bytes(*v).len());
            }
            let tag = Tag::new(num, WireType::Varint);
            match b.add_tag(tag) {
                Some(b2) => {
                    assert(b2@ == b@ + varint_len(tag_value(num@, WireType::Varint) as u64));
                    let r = b2.add_value::<Uint64>(v);
                    assert(Uint64::encoding(*v) == varint_bytes(*v));
                    assert(Uint64::encodable(*v));
                    assert(r is Some || b2@ + varint_bytes(*v).len() > i32::MAX);
                    assert(r is Some || b@ + parts_bytes(p).len() > i32::MAX);
                    r
                },
                None => {
                    assert(b@ + varint_len(tag_value(num@, WireType::Varint) as u64) > i32::MAX);
                    assert(b@ + parts_bytes(p).len() > i32::MAX);
                    None
                },
            }
        },
        UnknownField::Bit64(v) => {
            proof {
                assert(p.drop_first().drop_first() =~= Seq::<(bool, Seq<u8>)>::empty());
                assert(p[0].0 && p[1].0);
                assert(parts_bytes(p) =~= p[0].1 + p[1].1);
                lemma_varint_roundtrip(tag_value(num@, WireType::Bit64) as u64);
            }
            let tag = Tag::new(num, WireType::Bit64);
            proof {
                assert(parts_bytes(p).len() == varint_len(tag_value(num@, WireType::Bit64) as u64) + (spec_u64_to_le_bytes(*v)).len());
            }
            match b.add_tag(tag) {
                Some(b2) => {
                    let r = b2.add_value::<Fixed64>(v);
                    assert(r is Some || !parts_encodable(p) || b@ + parts_bytes(p).len() > i32::MAX);
                    r
                },
                None => {
                    assert(b@ + parts_bytes(p).len() > i32::MAX);
                    None
                },
            }
        },
        UnknownField::LengthDelimited(v) => {
            proof {
                assert(p.drop_first().drop_first() =~= Seq::<(bool, Seq<u8>)>::empty());
                assert(p[0].0);
                assert(parts_bytes(p) =~= p[0].1 + p[1].1);
                lemma_varint_roundtrip(tag_value(num@, WireType::LengthDelimited) as u64);
            }
            let tag = Tag::new(num, WireType::LengthDelimited);
            proof {
                assert(parts_bytes(p).len() == varint_len(tag_value(num@, WireType::LengthDelimited) as u64) + (varint_bytes(v@.len() as u64) + v@).len());
            }
            match b.add_tag(tag) {
                Some(b2) => {
                    let r = b2.add_value::<Bytes<Vec<u8>>>(v);
                    assert(p[1].0 == (v@.len() <= i32::MAX));
                    assert(r is Some || !parts_encodable(p) || b@ + parts_bytes(p).len() > i32::MAX);
                    r
                },
                None => {
                    assert(b@ + parts_bytes(p).len() > i32::MAX);
                    None
                },
            }
        },
        UnknownField::Group(g) => {
            let ghost head = seq![(true, tag_bytes(num@, WireType::StartGroup))];
            let ghost tail = seq![(true, tag_bytes(num@, WireType::EndGroup))];
            let ghost inner = set_parts(g@);
            proof {
                assert(head.drop_first() =~= Seq::<(bool, Seq<u8>)>::empty());
                assert(tail.drop_first() =~= Seq::<(bool, Seq<u8>)>::empty());
                lemma_parts_prefix(head, inner);
                lemma_parts_prefix(head + inner, tail);
                assert(parts_encodable(head)) by {
                    assert(head[0].0);
                }
                assert(parts_encodable(tail)) by {
                    assert(tail[0].0);
                }
                lemma_varint_roundtrip(tag_value(num@, WireType::StartGroup) as u64);
                lemma_varint_roundtrip(tag_value(num@, WireType::EndGroup) as u64);
            }
            let b2 = match b.add_tag(Tag::new(num, WireType::StartGroup)) {
                Some(b2) => b2,
                None => return None,
            };
            let b3 = match g.calculate_size(b2) {
                Some(b3) => b3,
                None => return None,
            };
            b3.add_tag(Tag::new(num, WireType::EndGroup))
        },
        UnknownField::Bit32(v) => {
            proof {
                assert(p.drop_first().drop_first() =~= Seq::<(bool, Seq<u8>)>::empty());
                assert(p[0].0 && p[1].0);
                assert(parts_bytes(p) =~= p[0].1 + p[1].1);
                lemma_varint_roundtrip(tag_value(num@, WireType::Bit32) as u64);
            }
            let tag = Tag::new(num, WireType::Bit32);
            proof {
                assert(parts_bytes(p).len() == varint_len(tag_value(num@, WireType::Bit32) as u64) + (spec_u32_to_le_bytes(*v)).len());
            }
            match b.add_tag(tag) {
                Some(b2) => {
                    let r = b2.add_value::<Fixed32>(v);
                    assert(r is Some || !parts_encodable(p) || b@ + parts_bytes(p).len() > i32::MAX);
                    r
                },
                None => {
                    assert(b@ + parts_bytes(p).len() > i32::MAX);
                    None
                },
            }
        },
    }
}

impl UnknownFieldSet {
    /// Writes the fields in this set to the writer: each field number's values, one field
    /// number after the other.
    #[verifier::spinoff_prover]
    pub fn write_to(&self, output: &mut CodedWriter) -> (r: WriteResult)
        ensures
            (final(output).written(), r) == parts_written(
                old(output).written(),
                old(output).capacity(),
                set_parts(self@),
            ),
            final(output).capacity() == old(output).capacity(),
            (*final(final(output).target()))@ == (*final(old(output).target()))@,
        decreases self@, 1nat,
    {
        proof {
            use_type_invariant(self);
            self.lemma_view_facts();
        }
        let ghost es = self@;
        let ghost start = output.written();
        let ghost cap = output.capacity();
        let mut i: usize = 0;
        proof {
            assert(es.take(0) =~= Seq::<(u32, Seq<FieldValue>)>::empty());
        }
        while i < self.entries.len()
            invariant
                es == self@,
                es.len() == self.entries@.len(),
                forall|k: int| 0 <= k < self.entries@.len() ==> #[trigger] es[k] == entry_view(self.entries@[k]),
                i <= self.entries@.len(),
                start == old(output).written(),
                cap == old(output).capacity(),
                output.capacity() == cap,
                (*final(output.target()))@ == (*final(old(output).target()))@,
                parts_written(start, cap, set_parts(es.take(i as int))).0 == output.written(),
                parts_written(start, cap, set_parts(es.take(i as int))).1 is Ok,
            decreases self.entries@.len() - i,
        {
            let entry = &self.entries[i];
            let num = entry.number;
            let ghost vs = es[i as int].1;
            let ghost before = set_parts(es.take(i as int));
            proof {
                reveal(entry_view);
                lemma_values_view(entry.values@);
                lemma_take_step(es, i as int);
                assert(vs.take(0) =~= Seq::<FieldValue>::empty());
                assert(before + field_values_parts(num@, vs.take(0)) =~= before);
            }
            let mut j: usize = 0;
            while j < entry.values.len()
                invariant
                    es == self@,
                    0 <= i < es.len(),
                    vs == es[i as int].1,
                    vs == values_view(entry.values@),
                    vs.len() == entry.values@.len(),
                    forall|k: int| 0 <= k < entry.values@.len() ==> #[trigger] vs[k] == field_view(entry.values@[k]),
                    num@ == es[i as int].0,
                    before == set_parts(es.take(i as int)),
                    j <= entry.values@.len(),
                    start == old(output).written(),
                    cap == old(output).capacity(),
                    output.capacity() == cap,
                    (*final(output.target()))@ == (*final(old(output).target()))@,
                    parts_written(start, cap, before + field_values_parts(num@, vs.take(j as int))).0
                        == output.written(),
                    parts_written(start, cap, before + field_values_parts(num@, vs.take(j as int))).1 is Ok,
                decreases entry.values@.len() - j,
            {
                let ghost done = before + field_values_parts(num@, vs.take(j as int));
                let ghost cur = field_value_parts(num@, vs[j as int]);
                let ghost rest = field_values_parts(num@, vs.skip(j + 1)) + set_parts(es.skip(i + 1));
                proof {
                    lemma_step_parts(es, i as int, j as int);
                    lemma_parts_written_append(start, cap, done, cur);
                    lemma_parts_written_append(start, cap, done + cur, rest);
                }
                match write_field_value(output, num, &entry.values[j]) {
                    Ok(()) => {},
                    Err(e) => {
                        return Err(e);
                    },
                }
                j = j + 1;
            }
            proof {
                assert(vs.take(j as int) =~= vs);
                lemma_take_step(es, i as int);
                assert(set_parts(es.take(i + 1)) == before + field_values_parts(num@, vs));
            }
            i = i + 1;
        }
        proof {
            assert(es.take(i as int) =~= es);
            lemma_ok_unit(parts_written(start, cap, set_parts(es)).1);
        }
        Ok(())
    }
}

/// Writes a value of field number `num`: its tag and value, or for a group its tags with its
/// fields between them.
fn write_field_value(output: &mut CodedWriter, num: FieldNumber, value: &UnknownField) -> (r: WriteResult)
    ensures
        (final(output).written(), r) == parts_written(
            old(output).written(),
            old(output).capacity(),
            field_value_parts(num@, value@),
        ),
        final(output).capacity() == old(output).capacity(),
        (*final(final(output).target()))@ == (*final(old(output).target()))@,
    decreases value@, 0nat,
{
    proof {
        reveal_with_fuel(parts_written, 3);
    }
    match value {
        UnknownField::Varint(v) => {
            match output.write_tag(Tag::new(num, WireType::Varint)) {
                Ok(()) => {},
                Err(e) => return Err(e),
            }
            output.write_varint64(*v)
        },
        UnknownField::Bit64(v) => {
            match output.write_tag(Tag::new(num, WireType::Bit64)) {
                Ok(()) => {},
                Err(e) => return Err(e),
            }
            output.write_bit64(*v)
        },
        UnknownField::LengthDelimited(v) => {
            match output.write_tag(Tag::new(num, WireType::LengthDelimited)) {
                Ok(()) => {},
                Err(e) => return Err(e),
            }
            output.write_length_delimited(v.as_slice())
        },
        UnknownField::Group(g) => {
            let ghost start = output.written();
            let ghost cap = output.capacity();
            let ghost head = seq![(true, tag_bytes(num@, WireType::StartGroup))];
            let ghost tail = seq![(true, tag_bytes(num@, WireType::EndGroup))];
            let ghost inner = set_parts(g@);
            proof {
                assert(field_value_parts(num@, value@) == head + inner + tail);
                lemma_parts_written_append(start, cap, head, inner);
                lemma_parts_written_append(start, cap, head + inner, tail);
                assert(head.drop_first() =~= Seq::<(bool, Seq<u8>)>::empty());
                assert(tail.drop_first() =~= Seq::<(bool, Seq<u8>)>::empty());
            }
            match output.write_tag(Tag::new(num, WireType::StartGroup)) {
                Ok(()) => {},
                Err(e) => return Err(e),
            }
            match g.write_to(output) {
                Ok(()) => {},
                Err(e) => return Err(e),
            }
            output.write_tag(Tag::new(num, WireType::EndGroup))
        },
        UnknownField::Bit32(v) => {
            match output.write_tag(Tag::new(num, WireType::Bit32)) {
                Ok(()) => {},
                Err(e) => return Err(e),
            }
            output.write_bit32(*v)
        },
    }
}

/// What reading the value of a field with tag `t` from the front of `s` gives: the number of
/// bytes read and the value, or the error. `end_group` is the end tag that ends the group
/// the reader is in, if any. A group is read up to its end tag, or to the end of the input.
pub open spec fn field_value_read(s: Seq<u8>, t: u32, end_group: Option<Tag>) -> ReadResult<(int, FieldValue)>
    decreases s.len(), 1nat,
{
    match wire_type_from_number(tag_wire_number(t)) {
        WireType::Varint => match varint_read(s) {
            Ok((n, v)) => Ok((n, FieldValue::Varint(v))),
            Err(e) => Err(e),
        },
        WireType::Bit64 => match fixed_read(s, 8) {
            Ok(b) => Ok((8, FieldValue::Bit64(spec_u64_from_le_bytes(b)))),
            Err(e) => Err(e),
        },
        WireType::LengthDelimited => match length_delimited_read(s) {
            Ok((n, b)) => Ok((n, FieldValue::LengthDelimited(b))),
            Err(e) => Err(e),
        },
        WireType::StartGroup => match group_read(
            s,
            tag_value(tag_field(t), WireType::EndGroup),
            end_group,
            Seq::empty(),
        ) {
            Ok((n, es)) => Ok((n, FieldValue::Group(es))),
            Err(e) => Err(e),
        },
        WireType::EndGroup => Err(ReadError::InvalidTag(t)),
        WireType::Bit32 => match fixed_read(s, 4) {
            Ok(b) => Ok((4, FieldValue::Bit32(spec_u32_from_le_bytes(b)))),
            Err(e) => Err(e),
        },
    }
}

/// What reading the fields of a group from the front of `s` gives, `acc` having been read
/// already: fields are read up to the end tag `end`, or to the end of the input or of the
/// group the reader is in. The number of bytes read and the fields, or the error.
pub open spec fn group_read(
    s: Seq<u8>,
    end: u32,
    end_group: Option<Tag>,
    acc: Seq<(u32, Seq<FieldValue>)>,
) -> ReadResult<(int, Seq<(u32, Seq<FieldValue>)>)>
    decreases s.len(), 0nat,
{
    match tag_read(s, end_group) {
        Err(e) => Err(e),
        Ok((n, None)) => Ok((n, acc)),
        Ok((n, Some(t))) => if t == end {
            Ok((n, acc))
        } else if n <= 0 || n > s.len() {
            Err(eof())
        } else {
            match field_value_read(s.skip(n), t, end_group) {
                Err(e) => Err(e),
                Ok((m, v)) => if m < 0 || n + m > s.len() {
                    Err(eof())
                } else {
                    match group_read(s.skip(n + m), end, end_group, view_push(acc, tag_field(t), v)) {
                        Ok((k, es)) => Ok((n + m + k, es)),
                        Err(e) => Err(e),
                    }
                },
            }
        },
    }
}

/// What reading an unknown field with tag `t` from the front of `rest` gives to the view `u`
/// of a message's unknown fields: an invalid tag is refused; when unknown fields are skipped,
/// or the tag ends a group, the value is skipped; else it is added. The number of bytes read
/// and the unknown fields after, or the error.
pub open spec fn unknown_field_read(
    u: Seq<(u32, Seq<FieldValue>)>,
    t: u32,
    rest: Seq<u8>,
    depth: nat,
    limit: nat,
    skip: bool,
    end_group: Option<Tag>,
) -> ReadResult<(int, Seq<(u32, Seq<FieldValue>)>)> {
    if !valid_tag(t) {
        Err(ReadError::InvalidTag(t))
    } else if skip || tag_wire_number(t) == 4 {
        match skip_read(rest, t, end_group, depth, limit) {
            Ok(m) => Ok((m, u)),
            Err(e) => Err(e),
        }
    } else {
        match field_value_read(rest, t, end_group) {
            Ok((m, v)) => Ok((m, view_push(u, tag_field(t), v))),
            Err(e) => Err(e),
        }
    }
}

/// The outcome of trying to add a field to a field set.
#[derive(Clone, Copy, PartialEq, Eq, Structural, Debug)]
pub enum TryRead {
    /// The set did not read the field, leaving it to others.
    Yielded,
    /// The set read the field, consuming it.
    Consumed,
}

/// What trying to add the field whose tag was the last one read to a set of unknown fields
/// does, from the set viewed as `old` and the reader `old_in` to the set viewed as `new` and
/// the reader `new_in` with the result `r`: the field is left to others where unknown fields
/// are skipped or the last tag ends a group; else its value is read and added to the set.
pub open spec fn unknown_field_added(
    old: Seq<(u32, Seq<FieldValue>)>,
    old_in: CodedReader,
    new: Seq<(u32, Seq<FieldValue>)>,
    new_in: CodedReader,
    r: ReadResult<TryRead>,
) -> bool {
    let yields = old_in.unknown_field_handling_view() == UnknownFieldHandling::Skip
        || (old_in.last_tag_view() matches Some(t) && tag_wire_number(t@) == 4);
    &&& yields ==> r == Ok::<TryRead, ReadError>(TryRead::Yielded) && new == old && new_in == old_in
    &&& !yields ==> match old_in.last_tag_view() {
        None => r == Ok::<TryRead, ReadError>(TryRead::Consumed) && new == old,
        Some(t) => match field_value_read(old_in.available(), t@, old_in.end_group_view()) {
            Ok((n, v)) => {
                &&& r == Ok::<TryRead, ReadError>(TryRead::Consumed)
                &&& new == view_push(old, tag_field(t@), v)
                &&& n >= 0
                &&& new_in.position() == old_in.position() + n
                &&& same_state(old_in, new_in)
            },
            Err(e) => r == Err::<TryRead, ReadError>(e) && new == old && same_state(old_in, new_in),
        },
    }
}

/// A set of fields read from coded readers and written to coded writers, such as the unknown
/// fields of a message.
pub trait FieldSet: Sized + View {
    /// What trying to add the field whose tag was the last one read does, from the set viewed
    /// as `old` and the reader `old_in` to the set viewed as `new` and the reader `new_in`,
    /// with the result `r`.
    spec fn field_added(
        old: Self::V,
        old_in: CodedReader,
        new: Self::V,
        new_in: CodedReader,
        r: ReadResult<TryRead>,
    ) -> bool;

    /// The parts the fields of a set viewed as `v` are written as.
    spec fn fields_parts(v: Self::V) -> Seq<(bool, Seq<u8>)>;

    /// Checks whether the set reads the field whose tag was the last one read, and reads it if
    /// so, saying whether it did.
    fn try_add_field_from(&mut self, input: &mut CodedReader) -> (r: ReadResult<TryRead>)
        ensures
            Self::field_added(old(self)@, *old(input), final(self)@, *final(input), r),
    ;

    /// Adds the size of all the fields in this set to the builder.
    fn calculate_size(&self, builder: LengthBuilder) -> (r: Option<LengthBuilder>)
        ensures
            size_added(
                builder@ as int,
                parts_encodable(Self::fields_parts(self@)),
                parts_bytes(Self::fields_parts(self@)).len() as int,
                r,
            ),
    ;

    /// Writes the fields in this set to the writer.
    fn write_to(&self, output: &mut CodedWriter) -> (r: WriteResult)
        ensures
            (final(output).written(), r) == parts_written(
                old(output).written(),
                old(output).capacity(),
                Self::fields_parts(self@),
            ),
            final(output).capacity() == old(output).capacity(),
            (*final(final(output).target()))@ == (*final(old(output).target()))@,
    ;

    /// Returns whether all the fields in this set are initialized.
    fn is_initialized(&self) -> (r: bool);
}

impl FieldSet for UnknownFieldSet {
    open spec fn field_added(
        old: Seq<(u32, Seq<FieldValue>)>,
        old_in: CodedReader,
        new: Seq<(u32, Seq<FieldValue>)>,
        new_in: CodedReader,
        r: ReadResult<TryRead>,
    ) -> bool {
        unknown_field_added(old, old_in, new, new_in, r)
    }

    open spec fn fields_parts(v: Seq<(u32, Seq<FieldValue>)>) -> Seq<(bool, Seq<u8>)> {
        set_parts(v)
    }

    fn try_add_field_from(&mut self, input: &mut CodedReader) -> (r: ReadResult<TryRead>) {
        UnknownFieldSet::try_add_field_from(self, input)
    }

    fn calculate_size(&self, builder: LengthBuilder) -> (r: Option<LengthBuilder>) {
        UnknownFieldSet::calculate_size(self, builder)
    }

    fn write_to(&self, output: &mut CodedWriter) -> (r: WriteResult) {
        UnknownFieldSet::write_to(self, output)
    }

    fn is_initialized(&self) -> (r: bool)
        ensures
            r,
    {
        UnknownFieldSet::is_initialized(self)
    }
}

impl TryRead {
    /// Tries to read the field into the set if no other set has read it; else does nothing.
    pub fn or_try<S: FieldSet>(self, set: &mut S, input: &mut CodedReader) -> (r: ReadResult<TryRead>)
        ensures
            self == TryRead::Consumed ==> r == Ok::<TryRead, ReadError>(TryRead::Consumed)
                && *final(set) == *old(set) && *final(input) == *old(input),
            self == TryRead::Yielded ==> S::field_added(old(set)@, *old(input), final(set)@, *final(input), r),
    {
        match self {
            TryRead::Yielded => set.try_add_field_from(input),
            TryRead::Consumed => Ok(TryRead::Consumed),
        }
    }

    /// Skips the field if no set has read it; else does nothing.
    pub fn or_skip(self, input: &mut CodedReader) -> (r: ReadResult<()>)
        ensures
            self == TryRead::Consumed ==> r == Ok::<(), ReadError>(()) && *final(input) == *old(input),
            self == TryRead::Yielded ==> skipped(*old(input), *final(input), r),
    {
        match self {
            TryRead::Yielded => input.skip(),
            TryRead::Consumed => Ok(()),
        }
    }
}

impl UnknownFieldSet {
    /// Reads the value of the field whose tag was the last one read, adding it to the set.
    /// With no last tag this does nothing. A group's fields are read up to its end tag into a
    /// set of their own. An end group tag has no value, and is refused as an invalid tag.
    #[verifier::spinoff_prover]
    pub fn add_field_from(&mut self, input: &mut CodedReader) -> (r: ReadResult<()>)
        ensures
            match old(input).last_tag_view() {
                None => r is Ok && *final(self) == *old(self) && *final(input) == *old(input),
                Some(t) => match field_value_read(old(input).available(), t@, old(input).end_group_view()) {
                    Ok((n, v)) => {
                        &&& r is Ok
                        &&& final(self)@ == view_push(old(self)@, tag_field(t@), v)
                        &&& n >= 0
                        &&& final(input).position() == old(input).position() + n
                        &&& same_state(*old(input), *final(input))
                    },
                    Err(e) => r == Err::<(), ReadError>(e) && final(self)@ == old(self)@ && same_state(
                        *old(input),
                        *final(input),
                    ),
                },
            },
        decreases old(input).available().len(), 1nat,
    {
        let tag = match input.last_tag() {
            Some(t) => t,
            None => return Ok(()),
        };
        let rem = input.remaining();
        proof {
            lemma_varint_read_len(input.available());
            lemma_length_delimited_read_len(input.available());
        }
        let num = tag.field();
        match tag.wire_type() {
            WireType::Varint => {
                let v = match input.read_varint64() {
                    Ok(v) => v,
                    Err(e) => return Err(e),
                };
                self.push_value(num, UnknownField::Varint(v));
                Ok(())
            },
            WireType::Bit64 => {
                let v = match input.read_bit64() {
                    Ok(v) => v,
                    Err(e) => return Err(e),
                };
                self.push_value(num, UnknownField::Bit64(v));
                Ok(())
            },
            WireType::LengthDelimited => {
                let v = match input.read_length_delimited() {
                    Ok(v) => v,
                    Err(e) => return Err(e),
                };
                self.push_value(num, UnknownField::LengthDelimited(v));
                Ok(())
            },
            WireType::StartGroup => {
                let group = match read_group(input, Tag::new(num, WireType::EndGroup)) {
                    Ok(g) => g,
                    Err(e) => return Err(e),
                };
                self.push_value(num, UnknownField::Group(group));
                Ok(())
            },
            WireType::EndGroup => Err(ReadError::InvalidTag(tag.get())),
            WireType::Bit32 => {
                let v = match input.read_bit32() {
                    Ok(v) => v,
                    Err(e) => return Err(e),
                };
                self.push_value(num, UnknownField::Bit32(v));
                Ok(())
            },
        }
    }

    /// Adds the field to the set unless unknown fields are skipped or the last tag read ends a
    /// group, in which cases the field is left to others.
    pub fn try_add_field_from(&mut self, input: &mut CodedReader) -> (r: ReadResult<TryRead>)
        ensures
            ({
                let yields = old(input).unknown_field_handling_view() == UnknownFieldHandling::Skip
                    || (old(input).last_tag_view() matches Some(t) && tag_wire_number(t@) == 4);
                &&& yields ==> r == Ok::<TryRead, ReadError>(TryRead::Yielded) && *final(self) == *old(self)
                    && *final(input) == *old(input)
                &&& !yields ==> match old(input).last_tag_view() {
                    None => r == Ok::<TryRead, ReadError>(TryRead::Consumed) && *final(self) == *old(self),
                    Some(t) => match field_value_read(old(input).available(), t@, old(input).end_group_view()) {
                        Ok((n, v)) => {
                            &&& r == Ok::<TryRead, ReadError>(TryRead::Consumed)
                            &&& final(self)@ == view_push(old(self)@, tag_field(t@), v)
                            &&& n >= 0
                            &&& final(input).position() == old(input).position() + n
                            &&& same_state(*old(input), *final(input))
                        },
                        Err(e) => r == Err::<TryRead, ReadError>(e) && final(self)@ == old(self)@
                            && same_state(*old(input), *final(input)),
                    },
                }
            }),
    {
        let end_group = match input.last_tag() {
            Some(t) => t.wire_type() == WireType::EndGroup,
            None => false,
        };
        if input.skip_unknown_fields() || end_group {
            return Ok(TryRead::Yielded);
        }
        match self.add_field_from(input) {
            Ok(()) => Ok(TryRead::Consumed),
            Err(e) => Err(e),
        }
    }

    /// Returns if all the fields in this set are initialized; unknown fields always are.
    pub fn is_initialized(&self) -> (r: bool)
        ensures
            r,
    {
        true
    }
}

/// Reads the fields of a group into a new set, up to its end tag `end`, or to the end of the
/// input or of the group the reader is in.
fn read_group(input: &mut CodedReader, end: Tag) -> (r: ReadResult<UnknownFieldSet>)
    ensures
        match group_read(old(input).available(), end@, old(input).end_group_view(), Seq::empty()) {
            Ok((n, es)) => r matches Ok(g) && g@ == es && n >= 0 && final(input).position() == old(
                input,
            ).position() + n && same_state(*old(input), *final(input)),
            Err(e) => r matches Err(e2) && e2 == e && same_state(*old(input), *final(input)),
        },
    decreases old(input).available().len(), 0nat,
{
    let ghost start = *input;
    let ghost total = group_read(input.available(), end@, input.end_group_view(), Seq::empty());
    let mut group = UnknownFieldSet::new();
    let rem0 = input.remaining();
    loop
        invariant
            start == *old(input),
            same_state(start, *input),
            0 <= start.position() <= input.position(),
            input.position() <= input.limit_end() <= input.input().len(),
            total == group_read(start.available(), end@, start.end_group_view(), Seq::empty()),
            total == match group_read(input.available(), end@, start.end_group_view(), group@) {
                Ok((k, es)) => Ok((input.position() - start.position() + k, es)),
                Err(e) => Err(e),
            },
        decreases input.available().len(),
    {
        let ghost s = input.available();
        let ghost cur = *input;
        let t = match input.read_tag() {
            Ok(Some(t)) => t,
            Ok(None) => {
                proof {
                    if s.len() != 0 {
                        lemma_varint_read_len(s);
                    }
                }
                return Ok(group);
            },
            Err(e) => return Err(e),
        };
        let rem = input.remaining();
        let ghost n = input.position() - cur.position();
        proof {
            if s.len() != 0 {
                lemma_varint_read_len(s);
            }
            assert(input.available() =~= s.skip(n));
        }
        if t.get() == end.get() {
            return Ok(group);
        }
        let ghost mid = *input;
        assert(input.available().len() < start.available().len());
        match group.add_field_from(input) {
            Ok(()) => {},
            Err(e) => return Err(e),
        }
        let rem2 = input.remaining();
        proof {
            let m = input.position() - mid.position();
            assert(input.available() =~= s.skip(n + m));
        }
    }
}

/// The view of a set after the last value of field number `n` is taken out, if it has one.
pub open spec fn view_pop(es: Seq<(u32, Seq<FieldValue>)>, n: u32) -> Seq<(u32, Seq<FieldValue>)> {
    let i = entry_index(es, n);
    if i >= 0 && es[i].1.len() > 0 {
        es.update(i, (n, es[i].1.drop_last()))
    } else {
        es
    }
}

impl UnknownFieldSet {
    /// Takes out the last value added for the field, if it has one. The field itself stays
    /// in the set.
    #[verifier::spinoff_prover]
    pub fn pop_value(&mut self, num: FieldNumber) -> (r: Option<UnknownField>)
        ensures
            final(self)@ == view_pop(old(self)@, num@),
            field_values(old(self)@, num@).len() > 0 ==> (r matches Some(v) && v@ == field_values(
                old(self)@,
                num@,
            ).last()),
            field_values(old(self)@, num@).len() == 0 ==> r is None,
    {
        let mut this = UnknownFieldSet::new();
        core::mem::swap(self, &mut this);
        proof {
            use_type_invariant(&this);
            this.lemma_view_facts();
        }
        let ghost old_view = this@;
        let UnknownFieldSet { index, entries: mut entries } = this;
        let ghost old_entries = entries@;
        let n = num.get();
        match index_get(&index, n) {
            Some(i) => {
                proof {
                    lemma_entry_index(old_view, n, i as int);
                    reveal(entry_view);
                    lemma_values_view(old_entries[i as int].values@);
                }
                let ghost old_values = entries@[i as int].values@;
                let r = entries[i].values.pop();
                proof {
                    if old_values.len() > 0 {
                        assert(entries@[i as int].values@ =~= old_values.drop_last());
                        lemma_values_view(old_values.drop_last());
                        assert(values_view(old_values.drop_last()) =~= values_view(old_values).drop_last());
                    } else {
                        assert(entries@[i as int].values@ =~= old_values);
                    }
                    lemma_entries_view(old_entries);
                    lemma_entries_view(entries@);
                    assert(entries@[i as int].number == old_entries[i as int].number);
                    assert forall|j: int| 0 <= j < entries@.len() && j != i implies entries@[j] == old_entries[j] by {}
                    assert forall|k: int| 0 <= k < entries@.len() implies (#[trigger] entries@[k]).number
                        == old_entries[k].number by {
                        if k != i {
                            assert(entries@[k] == old_entries[k]);
                        }
                    }
                }
                *self = UnknownFieldSet { index, entries };
                proof {
                    reveal(set_view);
                    assert(self@ =~= view_pop(old_view, n));
                }
                r
            },
            None => {
                proof {
                    assert forall|j: int| 0 <= j < old_view.len() implies old_view[j].0 != n by {
                        if old_view[j].0 == n {
                            assert(index_contents(index).contains_key(old_entries[j].number@));
                        }
                    }
                    lemma_entry_index(old_view, n, -1);
                }
                *self = UnknownFieldSet { index, entries };
                proof {
                    reveal(set_view);
                }
                None
            },
        }
    }

    /// Clears the set, removing all fields.
    pub fn clear(&mut self)
        ensures
            final(self)@ == Seq::<(u32, Seq<FieldValue>)>::empty(),
    {
        let mut this = UnknownFieldSet::new();
        core::mem::swap(self, &mut this);
        let UnknownFieldSet { index: mut index, entries: mut entries } = this;
        index_clear(&mut index);
        entries.clear();
        *self = UnknownFieldSet { index, entries };
        proof {
            reveal(set_view);
            assert(self.entries@ =~= Seq::<FieldEntry>::empty());
        }
    }

    /// Clears the field, removing all its values. The last field takes its place.
    #[verifier::spinoff_prover]
    pub fn clear_field(&mut self, num: FieldNumber)
        ensures
            final(self)@ == view_remove(old(self)@, num@),
    {
        let mut this = UnknownFieldSet::new();
        core::mem::swap(self, &mut this);
        proof {
            use_type_invariant(&this);
            this.lemma_view_facts();
        }
        let ghost old_view = this@;
        let UnknownFieldSet { index: mut index, entries: mut entries } = this;
        let ghost old_entries = entries@;
        let ghost old_map = index_contents(index);
        let n = num.get();
        match index_get(&index, n) {
            Some(i) => {
                proof {
                    lemma_entry_index(old_view, n, i as int);
                }
                let last = entries.len() - 1;
                let last_num = entries[last].number.get();
                index_remove(&mut index, n);
                if i != last {
                    index_insert(&mut index, last_num, i);
                }
                entries.swap_remove(i);
                proof {
                    lemma_entries_view(old_entries);
                    lemma_entries_view(entries@);
                    assert(entries@ =~= old_entries.update(i as int, old_entries.last()).drop_last());
                    assert forall|j: int| 0 <= j < entries@.len() implies index_contents(index).contains_key(
                        #[trigger] entries@[j].number@,
                    ) && index_contents(index)[entries@[j].number@] == j by {
                        if j != i {
                            assert(entries@[j] == old_entries[j]);
                            assert(old_entries[j].number@ != n);
                        } else {
                            assert(entries@[j] == old_entries[last as int]);
                            assert(old_entries[last as int].number@ != n);
                        }
                    }
                    assert forall|k: u32| #[trigger] index_contents(index).contains_key(k) implies index_contents(index)[k]
                        < entries@.len() && entries@[index_contents(index)[k] as int].number@ == k by {
                        if k != last_num {
                            assert(old_map.contains_key(k) && k != n);
                            assert(old_map[k] != last);
                            assert(old_map[k] != i);
                        }
                    }
                }
                *self = UnknownFieldSet { index, entries };
                proof {
                    reveal(set_view);
                    assert(self@ =~= view_remove(old_view, n));
                }
            },
            None => {
                proof {
                    assert forall|j: int| 0 <= j < old_view.len() implies old_view[j].0 != n by {
                        if old_view[j].0 == n {
                            assert(index_contents(index).contains_key(old_entries[j].number@));
                        }
                    }
                    lemma_entry_index(old_view, n, -1);
                }
                *self = UnknownFieldSet { index, entries };
                proof {
                    reveal(set_view);
                }
            },
        }
    }

    /// Gets the field numbers the set holds, in the order they were first added.
    pub fn field_numbers(&self) -> (r: Vec<FieldNumber>)
        ensures
            r@.len() == self@.len(),
            forall|i: int| 0 <= i < r@.len() ==> #[trigger] r@[i]@ == self@[i].0,
    {
        proof {
            use_type_invariant(self);
            self.lemma_view_facts();
        }
        let mut r: Vec<FieldNumber> = Vec::new();
        let mut i: usize = 0;
        while i < self.entries.len()
            invariant
                i <= self.entries@.len(),
                self@.len() == self.entries@.len(),
                forall|k: int| 0 <= k < self.entries@.len() ==> (#[trigger] self@[k]).0 == self.entries@[k].number@,
                r@.len() == i,
                forall|k: int| 0 <= k < i ==> #[trigger] r@[k]@ == self@[k].0,
            decreases self.entries@.len() - i,
        {
            r.push(self.entries[i].number);
            i = i + 1;
        }
        r
    }
}

/// The view of a set after the values of field number `n` from `start` up to `end` are taken
/// out, if it has that field.
pub open spec fn view_drain(es: Seq<(u32, Seq<FieldValue>)>, n: u32, start: int, end: int) -> Seq<(u32, Seq<FieldValue>)> {
    let i = entry_index(es, n);
    if i >= 0 {
        es.update(i, (n, es[i].1.subrange(0, start) + es[i].1.subrange(end, es[i].1.len() as int)))
    } else {
        es
    }
}

impl UnknownFieldSet {
    /// Gets the fields of the set: each field number with its values, in the order the
    /// numbers were first added.
    pub fn fields(&self) -> (r: Vec<(FieldNumber, &[UnknownField])>)
        ensures
            r@.len() == self@.len(),
            forall|i: int| 0 <= i < r@.len() ==> (#[trigger] r@[i]).0@ == self@[i].0 && values_view(
                r@[i].1@,
            ) == self@[i].1,
    {
        proof {
            use_type_invariant(self);
            self.lemma_view_facts();
            reveal(set_view);
            lemma_entries_view(self.entries@);
            reveal(entry_view);
        }
        let mut r: Vec<(FieldNumber, &[UnknownField])> = Vec::new();
        let mut i: usize = 0;
        while i < self.entries.len()
            invariant
                i <= self.entries@.len(),
                self@ == entries_view(self.entries@),
                self@.len() == self.entries@.len(),
                forall|k: int| 0 <= k < self.entries@.len() ==> #[trigger] self@[k] == entry_view(self.entries@[k]),
                r@.len() == i,
                forall|k: int| 0 <= k < i ==> (#[trigger] r@[k]).0@ == self@[k].0 && values_view(r@[k].1@)
                    == self@[k].1,
            decreases self.entries@.len() - i,
        {
            let e = &self.entries[i];
            proof {
                reveal(entry_view);
            }
            r.push((e.number, e.values.as_slice()));
            i = i + 1;
        }
        r
    }

    /// Clears the set, giving back its fields: each field number with its values, in the
    /// order the numbers were first added.
    pub fn drain(&mut self) -> (r: Vec<(FieldNumber, Vec<UnknownField>)>)
        ensures
            final(self)@ == Seq::<(u32, Seq<FieldValue>)>::empty(),
            r@.len() == old(self)@.len(),
            forall|i: int| 0 <= i < r@.len() ==> (#[trigger] r@[i]).0@ == old(self)@[i].0 && values_view(
                r@[i].1@,
            ) == old(self)@[i].1,
    {
        let mut this = UnknownFieldSet::new();
        core::mem::swap(self, &mut this);
        proof {
            use_type_invariant(&this);
            reveal(set_view);
            lemma_entries_view(this.entries@);
        }
        let ghost old_view = this@;
        let UnknownFieldSet { index: _, entries: mut entries } = this;
        let ghost old_entries = entries@;
        let mut r: Vec<(FieldNumber, Vec<UnknownField>)> = Vec::new();
        while entries.len() > 0
            invariant
                old_view == entries_view(old_entries),
                old_view.len() == old_entries.len(),
                forall|k: int| 0 <= k < old_entries.len() ==> #[trigger] old_view[k] == entry_view(old_entries[k]),
                r@.len() + entries@.len() == old_entries.len(),
                entries@ == old_entries.skip(r@.len() as int),
                forall|k: int| 0 <= k < r@.len() ==> (#[trigger] r@[k]).0@ == old_view[k].0 && values_view(r@[k].1@)
                    == old_view[k].1,
            decreases entries@.len(),
        {
            let ghost k = r@.len() as int;
            let e = entries.remove(0);
            proof {
                assert(e == old_entries[k]);
                assert(entries@ =~= old_entries.skip(k + 1));
                reveal(entry_view);
            }
            let FieldEntry { number, values } = e;
            r.push((number, values));
        }
        r
    }

    /// Takes out the values of a field from `start` up to `end`, giving them back; the values
    /// after them take their place. A field the set does not hold gives none.
    #[verifier::spinoff_prover]
    pub fn drain_values(&mut self, num: FieldNumber, start: usize, end: usize) -> (r: Vec<UnknownField>)
        requires
            entry_index(old(self)@, num@) >= 0 ==> start <= end <= field_values(old(self)@, num@).len(),
        ensures
            final(self)@ == view_drain(old(self)@, num@, start as int, end as int),
            entry_index(old(self)@, num@) >= 0 ==> values_view(r@) == field_values(old(self)@, num@).subrange(
                start as int,
                end as int,
            ),
            entry_index(old(self)@, num@) < 0 ==> r@.len() == 0,
    {
        let mut this = UnknownFieldSet::new();
        core::mem::swap(self, &mut this);
        proof {
            use_type_invariant(&this);
            this.lemma_view_facts();
        }
        let ghost old_view = this@;
        let UnknownFieldSet { index, entries: mut entries } = this;
        let ghost old_entries = entries@;
        let n = num.get();
        let mut r: Vec<UnknownField> = Vec::new();
        match index_get(&index, n) {
            Some(i) => {
                proof {
                    lemma_entry_index(old_view, n, i as int);
                    reveal(entry_view);
                    lemma_values_view(old_entries[i as int].values@);
                }
                let ghost old_values = old_entries[i as int].values@;
                let mut k: usize = start;
                while k < end
                    invariant
                        start <= k <= end <= old_values.len(),
                        i < entries@.len(),
                        entries@.len() == old_entries.len(),
                        entries@[i as int].number == old_entries[i as int].number,
                        forall|j: int| 0 <= j < entries@.len() && j != i ==> entries@[j] == old_entries[j],
                        entries@[i as int].values@ == old_values.subrange(0, start as int) + old_values.subrange(
                            k as int,
                            old_values.len() as int,
                        ),
                        r@ == old_values.subrange(start as int, k as int),
                    decreases end - k,
                {
                    let ghost before = entries@[i as int].values@;
                    let v = entries[i].values.remove(start);
                    proof {
                        assert(v == old_values[k as int]);
                        assert(entries@[i as int].values@ =~= old_values.subrange(0, start as int) + old_values.subrange(
                            k + 1,
                            old_values.len() as int,
                        ));
                    }
                    r.push(v);
                    proof {
                        assert(r@ =~= old_values.subrange(start as int, k + 1));
                    }
                    k = k + 1;
                }
                proof {
                    let nv = entries@[i as int].values@;
                    lemma_values_view(nv);
                    lemma_values_view(r@);
                    let prefix = old_values.subrange(0, start as int);
                    let suffix = old_values.subrange(end as int, old_values.len() as int);
                    let ovv = values_view(old_values);
                    assert(values_view(nv) =~= ovv.subrange(0, start as int) + ovv.subrange(end as int, ovv.len() as int));
                    assert(values_view(r@) =~= ovv.subrange(start as int, end as int));
                    lemma_entries_view(old_entries);
                    lemma_entries_view(entries@);
                    assert forall|q: int| 0 <= q < entries@.len() implies (#[trigger] entries@[q]).number
                        == old_entries[q].number by {
                        if q != i {
                            assert(entries@[q] == old_entries[q]);
                        }
                    }
                }
                *self = UnknownFieldSet { index, entries };
                proof {
                    reveal(set_view);
                    assert(self@ =~= view_drain(old_view, n, start as int, end as int));
                }
                r
            },
            None => {
                proof {
                    assert forall|j: int| 0 <= j < old_view.len() implies old_view[j].0 != n by {
                        if old_view[j].0 == n {
                            assert(index_contents(index).contains_key(old_entries[j].number@));
                        }
                    }
                    lemma_entry_index(old_view, n, -1);
                }
                *self = UnknownFieldSet { index, entries };
                proof {
                    reveal(set_view);
                }
                r
            },
        }
    }
}

/// Copies a run of bytes.
fn copy_bytes(b: &Vec<u8>) -> (r: Vec<u8>)
    ensures
        r@ == b@,
{
    let mut r: Vec<u8> = Vec::new();
    let mut i: usize = 0;
    while i < b.len()
        invariant
            i <= b@.len(),
            r@ == b@.take(i as int),
        decreases b@.len() - i,
    {
        r.push(b[i]);
        i = i + 1;
        proof {
            assert(r@ =~= b@.take(i as int));
        }
    }
    proof {
        assert(b@.take(i as int) =~= b@);
    }
    r
}

/// Copies an unknown field value; a group is copied with all its fields.
fn copy_field(f: &UnknownField) -> (r: UnknownField)
    ensures
        r@ == f@,
    decreases f,
{
    match f {
        UnknownField::Varint(v) => UnknownField::Varint(*v),
        UnknownField::Bit64(v) => UnknownField::Bit64(*v),
        UnknownField::LengthDelimited(b) => UnknownField::LengthDelimited(copy_bytes(b)),
        UnknownField::Group(g) => UnknownField::Group(copy_set(g)),
        UnknownField::Bit32(v) => UnknownField::Bit32(*v),
    }
}

/// Copies an unknown field set: the same field numbers in the same order, each with copies of
/// its values.
#[verifier::spinoff_prover]
fn copy_set(s: &UnknownFieldSet) -> (r: UnknownFieldSet)
    ensures
        r@ == s@,
    decreases s,
{
    proof {
        use_type_invariant(s);
    }
    let mut entries: Vec<FieldEntry> = Vec::new();
    let mut i: usize = 0;
    while i < s.entries.len()
        invariant
            i <= s.entries@.len(),
            entries@.len() == i,
            forall|k: int| 0 <= k < i ==> (#[trigger] entries@[k]).number == s.entries@[k].number,
            forall|k: int| 0 <= k < i ==> entry_view(#[trigger] entries@[k]) == entry_view(s.entries@[k]),
        decreases s.entries@.len() - i,
    {
        let e = &s.entries[i];
        let mut values: Vec<UnknownField> = Vec::new();
        let mut j: usize = 0;
        while j < e.values.len()
            invariant
                e == s.entries@[i as int],
                i < s.entries@.len(),
                j <= e.values@.len(),
                values@.len() == j,
                forall|k: int| 0 <= k < j ==> field_view(#[trigger] values@[k]) == field_view(e.values@[k]),
            decreases e.values@.len() - j,
        {
            proof {
                assert(decreases_to!(s => s.entries));
                assert(decreases_to!(s.entries => s.entries@));
                assert(decreases_to!(s.entries@ => s.entries@[i as int]));
                assert(decreases_to!(s.entries@[i as int] => s.entries@[i as int].values));
                assert(decreases_to!(s.entries@[i as int].values => s.entries@[i as int].values@));
                assert(decreases_to!(s.entries@[i as int].values@ => s.entries@[i as int].values@[j as int]));
            }
            let v = copy_field(&e.values[j]);
            values.push(v);
            j = j + 1;
        }
        proof {
            lemma_values_view_ext(values@, e.values@);
            reveal(entry_view);
        }
        entries.push(FieldEntry { number: e.number, values });
        i = i + 1;
    }
    let index = index_clone(&s.index);
    proof {
        lemma_entries_view_ext(entries@, s.entries@);
    }
    let r = UnknownFieldSet { index, entries };
    proof {
        reveal(set_view);
    }
    r
}

impl Clone for UnknownField {
    /// Copies the value; a group is copied with all its fields.
    fn clone(&self) -> (r: UnknownField)
        ensures
            r@ == self@,
    {
        copy_field(self)
    }
}

impl Clone for UnknownFieldSet {
    /// Copies the set: the same field numbers in the same order, each with copies of its
    /// values.
    fn clone(&self) -> (r: UnknownFieldSet)
        ensures
            r@ == self@,
    {
        copy_set(self)
    }
}

/// The view of a set after the values `vs` are added to field number `n`, one after the other.
pub open spec fn view_push_all(es: Seq<(u32, Seq<FieldValue>)>, n: u32, vs: Seq<FieldValue>) -> Seq<(u32, Seq<FieldValue>)>
    decreases vs.len(),
{
    if vs.len() == 0 {
        es
    } else {
        view_push(view_push_all(es, n, vs.drop_last()), n, vs.last())
    }
}

/// The view of a set after the fields of `other` are merged into it: each field's values are
/// added to the field with the same number, one field of `other` after the other.
pub open spec fn view_merge(es: Seq<(u32, Seq<FieldValue>)>, other: Seq<(u32, Seq<FieldValue>)>) -> Seq<(u32, Seq<FieldValue>)>
    decreases other.len(),
{
    if other.len() == 0 {
        es
    } else {
        view_push_all(view_merge(es, other.drop_last()), other.last().0, other.last().1)
    }
}

impl Mergable for UnknownFieldSet {
    /// The fields of `other` are added to those of `this`, value by value.
    open spec fn merge_of(
        this: Seq<(u32, Seq<FieldValue>)>,
        other: Seq<(u32, Seq<FieldValue>)>,
        result: Seq<(u32, Seq<FieldValue>)>,
    ) -> bool {
        result == view_merge(this, other)
    }

    /// Merges the fields of another set into this one: each of its values is added to the
    /// field with its number, after the values the field already holds.
    #[verifier::spinoff_prover]
    fn merge(&mut self, other: &UnknownFieldSet) {
        proof {
            use_type_invariant(other);
            other.lemma_view_facts();
            assert(other@.take(0) =~= Seq::<(u32, Seq<FieldValue>)>::empty());
        }
        let mut i: usize = 0;
        while i < other.entries.len()
            invariant
                i <= other.entries@.len(),
                other@.len() == other.entries@.len(),
                forall|k: int| 0 <= k < other.entries@.len() ==> #[trigger] other@[k] == entry_view(other.entries@[k]),
                self@ == view_merge(old(self)@, other@.take(i as int)),
            decreases other.entries@.len() - i,
        {
            let e = &other.entries[i];
            let ghost base = self@;
            let ghost vs = values_view(e.values@);
            proof {
                lemma_values_view(e.values@);
                assert(vs.take(0) =~= Seq::<FieldValue>::empty());
            }
            let mut j: usize = 0;
            while j < e.values.len()
                invariant
                    e == other.entries@[i as int],
                    i < other.entries@.len(),
                    j <= e.values@.len(),
                    vs == values_view(e.values@),
                    vs.len() == e.values@.len(),
                    forall|k: int| 0 <= k < e.values@.len() ==> #[trigger] vs[k] == field_view(e.values@[k]),
                    self@ == view_push_all(base, e.number@, vs.take(j as int)),
                decreases e.values@.len() - j,
            {
                let v = e.values[j].clone();
                self.push_value(e.number, v);
                proof {
                    assert(vs.take(j + 1).drop_last() =~= vs.take(j as int));
                }
                j = j + 1;
            }
            proof {
                reveal(entry_view);
                assert(vs.take(j as int) =~= vs);
                assert(other@.take(i + 1).drop_last() =~= other@.take(i as int));
            }
            i = i + 1;
        }
        proof {
            assert(other@.take(i as int) =~= other@);
        }
    }
}

/// Adding values to a field one after the other puts them after the field's values and changes
/// no other field; the field numbers stay distinct.
pub proof fn lemma_push_all_values(es: Seq<(u32, Seq<FieldValue>)>, n: u32, vs: Seq<FieldValue>, m: u32)
    requires
        numbers_distinct(es),
    ensures
        numbers_distinct(view_push_all(es, n, vs)),
        field_values(view_push_all(es, n, vs), m) == if m == n {
            field_values(es, n) + vs
        } else {
            field_values(es, m)
        },
    decreases vs.len(),
{
    if vs.len() == 0 {
        assert(field_values(es, n) + vs =~= field_values(es, n));
    } else {
        let before = view_push_all(es, n, vs.drop_last());
        lemma_push_all_values(es, n, vs.drop_last(), m);
        lemma_push_all_values(es, n, vs.drop_last(), n);
        lemma_push_values(before, n, vs.last(), m);
        assert(field_values(es, n) + vs.drop_last() + seq![vs.last()] =~= field_values(es, n) + vs);
        assert((field_values(es, n) + vs.drop_last()).push(vs.last()) =~= field_values(es, n) + vs);
    }
}

/// Merging a set into another gives each field the values it had, then those of the field
/// with its number in the set merged in; the field numbers stay distinct.
pub proof fn lemma_merge_values(es: Seq<(u32, Seq<FieldValue>)>, other: Seq<(u32, Seq<FieldValue>)>, m: u32)
    requires
        numbers_distinct(es),
        numbers_distinct(other),
    ensures
        numbers_distinct(view_merge(es, other)),
        field_values(view_merge(es, other), m) == field_values(es, m) + field_values(other, m),
    decreases other.len(),
{
    if other.len() == 0 {
        lemma_entry_index(other, m, -1);
        assert(field_values(es, m) + field_values(other, m) =~= field_values(es, m));
    } else {
        let rest = other.drop_last();
        let last = other.last();
        assert(numbers_distinct(rest)) by {
            assert forall|a: int, b: int| 0 <= a < b < rest.len() implies #[trigger] rest[a].0 != #[trigger] rest[b].0 by {
                assert(rest[a] == other[a] && rest[b] == other[b]);
            }
        }
        lemma_merge_values(es, rest, m);
        lemma_merge_values(es, rest, last.0);
        lemma_push_all_values(view_merge(es, rest), last.0, last.1, m);
        lemma_field_values_absent(rest, m);
        if m == last.0 {
            assert forall|j: int| 0 <= j < rest.len() implies rest[j].0 != m by {
                assert(rest[j] == other[j]);
                assert(other[j].0 != other[other.len() - 1].0);
            }
            lemma_entry_index(rest, m, -1);
            assert(field_values(rest, m) =~= Seq::<FieldValue>::empty());
            assert(field_values(other, m) == last.1);
            assert(field_values(es, m) + field_values(rest, m) + last.1 =~= field_values(es, m) + last.1);
        } else {
            let k = entry_index(rest, m);
            if k >= 0 {
                assert(rest[k] == other[k]);
            }
            assert(field_values(other, m) == field_values(rest, m));
        }
    }
}

/// The wire type an unknown field value is written with.
pub open spec fn field_value_wire_type(v: FieldValue) -> WireType {
    match v {
        FieldValue::Varint(_) => WireType::Varint,
        FieldValue::Bit64(_) => WireType::Bit64,
        FieldValue::LengthDelimited(_) => WireType::LengthDelimited,
        FieldValue::Group(_) => WireType::StartGroup,
        FieldValue::Bit32(_) => WireType::Bit32,
    }
}

/// An unknown field value other than a group, written after its tag, is read back as the same
/// value, taking all the bytes written for it, whatever follows them.
pub proof fn lemma_field_value_roundtrip(n: u32, v: FieldValue, rest: Seq<u8>, end_group: Option<Tag>)
    requires
        valid_field_number(n),
        !(v is Group),
        field_value_parts(n, v)[1].0,
    ensures
        field_value_read(
            field_value_parts(n, v)[1].1 + rest,
            tag_value(n, field_value_wire_type(v)),
            end_group,
        ) == Ok::<(int, FieldValue), ReadError>((field_value_parts(n, v)[1].1.len() as int, v)),
{
    lemma_tag_parts(n, field_value_wire_type(v));
    match v {
        FieldValue::Varint(x) => {
            lemma_varint_read_encoding(x, rest);
            lemma_varint_roundtrip(x);
        },
        FieldValue::Bit64(x) => {
            lemma_auto_spec_u64_to_from_le_bytes();
            assert((spec_u64_to_le_bytes(x) + rest).take(8) =~= spec_u64_to_le_bytes(x));
        },
        FieldValue::LengthDelimited(b) => {
            lemma_length_delimited_read_encoding(b, rest);
            lemma_varint_roundtrip(b.len() as u64);
            assert(varint_bytes(b.len() as u64) + b + rest =~= (varint_bytes(b.len() as u64) + b) + rest);
        },
        FieldValue::Bit32(x) => {
            lemma_auto_spec_u32_to_from_le_bytes();
            assert((spec_u32_to_le_bytes(x) + rest).take(4) =~= spec_u32_to_le_bytes(x));
        },
        FieldValue::Group(_) => {},
    }
}

/// The field numbers and values of a run of values of field number `n`.
pub open spec fn values_pairs(n: u32, vs: Seq<FieldValue>) -> Seq<(u32, FieldValue)> {
    vs.map_values(|v: FieldValue| (n, v))
}

/// The field numbers and values of the view of a set, in the order the set is written: each
/// field's values, field after field.
pub open spec fn set_pairs(es: Seq<(u32, Seq<FieldValue>)>) -> Seq<(u32, FieldValue)>
    decreases es.len(),
{
    if es.len() == 0 {
        Seq::empty()
    } else {
        set_pairs(es.drop_last()) + values_pairs(es.last().0, es.last().1)
    }
}

/// The parts values with their field numbers are written as, one after the other.
pub open spec fn pairs_parts(ps: Seq<(u32, FieldValue)>) -> Seq<(bool, Seq<u8>)>
    decreases ps.len(),
{
    if ps.len() == 0 {
        Seq::empty()
    } else {
        field_value_parts(ps[0].0, ps[0].1) + pairs_parts(ps.drop_first())
    }
}

/// The view of a set after values are added to it one after the other, each to the field with
/// its number.
pub open spec fn push_pairs(es: Seq<(u32, Seq<FieldValue>)>, ps: Seq<(u32, FieldValue)>) -> Seq<(u32, Seq<FieldValue>)>
    decreases ps.len(),
{
    if ps.len() == 0 {
        es
    } else {
        push_pairs(view_push(es, ps[0].0, ps[0].1), ps.drop_first())
    }
}

/// Whether an unknown field value of field number `n` is read back as it is written: the field
/// number is valid, a length delimited value's length fits in a length, and a group's fields
/// have distinct numbers, each with values that are read back as written.
pub open spec fn value_readable(n: u32, v: FieldValue) -> bool
    decreases v,
{
    &&& valid_field_number(n)
    &&& match v {
        FieldValue::LengthDelimited(b) => b.len() <= i32::MAX,
        FieldValue::Group(es) => numbers_distinct(es) && entries_readable(es),
        _ => true,
    }
}

/// Whether each of a run of values of field number `n` is read back as it is written.
pub open spec fn values_readable(n: u32, vs: Seq<FieldValue>) -> bool
    decreases vs,
{
    if vs.len() == 0 {
        true
    } else {
        values_readable(n, vs.subrange(0, vs.len() - 1)) && value_readable(n, vs[vs.len() - 1])
    }
}

/// Whether each field of the view of a set has values, each read back as it is written.
pub open spec fn entries_readable(es: Seq<(u32, Seq<FieldValue>)>) -> bool
    decreases es,
{
    if es.len() == 0 {
        true
    } else {
        &&& entries_readable(es.subrange(0, es.len() - 1))
        &&& es[es.len() - 1].1.len() > 0
        &&& values_readable(es[es.len() - 1].0, es[es.len() - 1].1)
    }
}

/// Whether a set is read back as it is written: its field numbers are distinct, and each field
/// has values, each read back as written.
pub open spec fn set_readable(es: Seq<(u32, Seq<FieldValue>)>) -> bool {
    numbers_distinct(es) && entries_readable(es)
}

/// The parts of two runs of values are those of the first, then the second.
proof fn lemma_pairs_parts_append(a: Seq<(u32, FieldValue)>, b: Seq<(u32, FieldValue)>)
    ensures
        pairs_parts(a + b) == pairs_parts(a) + pairs_parts(b),
    decreases a.len(),
{
    if a.len() == 0 {
        assert(a + b =~= b);
        assert(pairs_parts(a) + pairs_parts(b) =~= pairs_parts(b));
    } else {
        assert((a + b).drop_first() =~= a.drop_first() + b);
        assert((a + b)[0] == a[0]);
        lemma_pairs_parts_append(a.drop_first(), b);
        assert(pairs_parts(a + b) =~= pairs_parts(a) + pairs_parts(b));
    }
}

/// Adding two runs of values adds the first, then the second.
proof fn lemma_push_pairs_append(es: Seq<(u32, Seq<FieldValue>)>, a: Seq<(u32, FieldValue)>, b: Seq<(u32, FieldValue)>)
    ensures
        push_pairs(es, a + b) == push_pairs(push_pairs(es, a), b),
    decreases a.len(),
{
    if a.len() == 0 {
        assert(a + b =~= b);
    } else {
        assert((a + b).drop_first() =~= a.drop_first() + b);
        assert((a + b)[0] == a[0]);
        lemma_push_pairs_append(view_push(es, a[0].0, a[0].1), a.drop_first(), b);
    }
}

/// The values of a run of one value.
proof fn lemma_one_pair(n: u32, v: FieldValue, es: Seq<(u32, Seq<FieldValue>)>)
    ensures
        pairs_parts(seq![(n, v)]) == field_value_parts(n, v),
        push_pairs(es, seq![(n, v)]) == view_push(es, n, v),
{
    let p = seq![(n, v)];
    reveal_with_fuel(pairs_parts, 2);
    reveal_with_fuel(push_pairs, 2);
    assert(p.drop_first() =~= Seq::<(u32, FieldValue)>::empty());
    assert(field_value_parts(n, v) + Seq::<(bool, Seq<u8>)>::empty() =~= field_value_parts(n, v));
}

/// A run of values of one field number is written as its pairs, and adding them one after the
/// other adds its pairs.
proof fn lemma_values_pairs(n: u32, vs: Seq<FieldValue>, es: Seq<(u32, Seq<FieldValue>)>)
    ensures
        field_values_parts(n, vs) == pairs_parts(values_pairs(n, vs)),
        view_push_all(es, n, vs) == push_pairs(es, values_pairs(n, vs)),
    decreases vs.len(),
{
    if vs.len() == 0 {
        assert(values_pairs(n, vs) =~= Seq::<(u32, FieldValue)>::empty());
    } else {
        let d = vs.subrange(0, vs.len() - 1);
        assert(d =~= vs.drop_last());
        lemma_values_pairs(n, d, es);
        assert(values_pairs(n, vs) =~= values_pairs(n, d) + seq![(n, vs.last())]);
        lemma_pairs_parts_append(values_pairs(n, d), seq![(n, vs.last())]);
        lemma_push_pairs_append(es, values_pairs(n, d), seq![(n, vs.last())]);
        lemma_one_pair(n, vs.last(), push_pairs(es, values_pairs(n, d)));
    }
}

/// A set is written as its pairs, and merging it into another adds its pairs.
pub proof fn lemma_set_pairs(es: Seq<(u32, Seq<FieldValue>)>, acc: Seq<(u32, Seq<FieldValue>)>)
    ensures
        set_parts(es) == pairs_parts(set_pairs(es)),
        view_merge(acc, es) == push_pairs(acc, set_pairs(es)),
    decreases es.len(),
{
    if es.len() == 0 {
    } else {
        let d = es.drop_last();
        assert(d =~= es.subrange(0, es.len() - 1));
        lemma_set_pairs(d, acc);
        let last = es.last();
        lemma_values_pairs(last.0, last.1, view_merge(acc, d));
        lemma_pairs_parts_append(set_pairs(d), values_pairs(last.0, last.1));
        lemma_push_pairs_append(acc, set_pairs(d), values_pairs(last.0, last.1));
    }
}

/// Adding values to a field no entry is numbered with adds one entry at the end with those
/// values.
proof fn lemma_push_all_new(es: Seq<(u32, Seq<FieldValue>)>, n: u32, vs: Seq<FieldValue>)
    requires
        numbers_distinct(es),
        forall|k: int| 0 <= k < es.len() ==> #[trigger] es[k].0 != n,
        vs.len() > 0,
    ensures
        view_push_all(es, n, vs) == es.push((n, vs)),
    decreases vs.len(),
{
    lemma_entry_index(es, n, -1);
    let d = vs.drop_last();
    if d.len() == 0 {
        assert(view_push_all(es, n, d) == es);
        assert(seq![vs.last()] =~= vs);
    } else {
        lemma_push_all_new(es, n, d);
        let e2 = es.push((n, d));
        assert(entry_index(e2, n) == es.len());
        assert(d.push(vs.last()) =~= vs);
        assert(e2.update(es.len() as int, (n, d.push(vs.last()))) =~= es.push((n, vs)));
    }
}

/// Merging a set with distinct field numbers, each with values, into an empty set gives it
/// back.
pub proof fn lemma_merge_into_empty(es: Seq<(u32, Seq<FieldValue>)>)
    requires
        numbers_distinct(es),
        forall|k: int| 0 <= k < es.len() ==> (#[trigger] es[k]).1.len() > 0,
    ensures
        view_merge(Seq::empty(), es) == es,
    decreases es.len(),
{
    if es.len() > 0 {
        let d = es.drop_last();
        assert(numbers_distinct(d)) by {
            assert forall|a: int, b: int| 0 <= a < b < d.len() implies #[trigger] d[a].0 != #[trigger] d[b].0 by {
                assert(d[a] == es[a] && d[b] == es[b]);
            }
        }
        assert forall|k: int| 0 <= k < d.len() implies (#[trigger] d[k]).1.len() > 0 by {
            assert(d[k] == es[k]);
        }
        lemma_merge_into_empty(d);
        assert forall|k: int| 0 <= k < d.len() implies #[trigger] d[k].0 != es.last().0 by {
            assert(d[k] == es[k]);
            assert(es[k].0 != es[es.len() - 1].0);
        }
        assert(es[es.len() - 1].1.len() > 0);
        lemma_push_all_new(d, es.last().0, es.last().1);
        assert(d.push(es.last()) =~= es);
    }
}

/// Each of a run of values read back as written is.
proof fn lemma_values_readable(n: u32, vs: Seq<FieldValue>)
    requires
        values_readable(n, vs),
    ensures
        forall|j: int| 0 <= j < vs.len() ==> value_readable(n, #[trigger] vs[j]),
    decreases vs.len(),
{
    if vs.len() > 0 {
        let d = vs.subrange(0, vs.len() - 1);
        lemma_values_readable(n, d);
        assert forall|j: int| 0 <= j < vs.len() implies value_readable(n, #[trigger] vs[j]) by {
            if j < vs.len() - 1 {
                assert(d[j] == vs[j]);
            }
        }
    }
}

/// The pairs of a set whose fields are read back as written are, each with values.
pub proof fn lemma_entries_readable(es: Seq<(u32, Seq<FieldValue>)>)
    requires
        entries_readable(es),
    ensures
        forall|k: int| 0 <= k < set_pairs(es).len() ==> value_readable(#[trigger] set_pairs(es)[k].0, set_pairs(es)[k].1),
        forall|k: int| 0 <= k < es.len() ==> (#[trigger] es[k]).1.len() > 0,
    decreases es.len(),
{
    if es.len() > 0 {
        let d = es.drop_last();
        assert(d =~= es.subrange(0, es.len() - 1));
        lemma_entries_readable(d);
        let last = es.last();
        lemma_values_readable(last.0, last.1);
        let a = set_pairs(d);
        let b = values_pairs(last.0, last.1);
        assert forall|k: int| 0 <= k < set_pairs(es).len() implies value_readable(#[trigger] set_pairs(es)[k].0, set_pairs(es)[k].1) by {
            if k < a.len() {
                assert(set_pairs(es)[k] == a[k]);
            } else {
                assert(set_pairs(es)[k] == b[k - a.len()]);
                assert(b[k - a.len()] == (last.0, last.1[k - a.len()]));
            }
        }
        assert forall|k: int| 0 <= k < es.len() implies (#[trigger] es[k]).1.len() > 0 by {
            if k < d.len() {
                assert(d[k] == es[k]);
            }
        }
    }
}

/// The bytes written for a value other than a group, followed by anything: its tag is read,
/// then the value, taking all the bytes written for it.
proof fn lemma_read_plain_value(n: u32, v: FieldValue, after: Seq<u8>)
    requires
        value_readable(n, v),
        !(v is Group),
    ensures
        ({
            let s = parts_bytes(field_value_parts(n, v)) + after;
            let t = tag_value(n, field_value_wire_type(v));
            let k = varint_len(t as u64) as int;
            &&& tag_read(s, None) == Ok::<(int, Option<u32>), ReadError>((k, Some(t)))
            &&& varint_read(s) == Ok::<(int, u64), ReadError>((k, t as u64))
            &&& valid_tag(t)
            &&& 0 < k <= s.len()
            &&& tag_wire_number(t) != 4
            &&& tag_field(t) == n
            &&& field_value_read(s.skip(k), t, None) == Ok::<(int, FieldValue), ReadError>(
                (parts_bytes(field_value_parts(n, v)).len() - k, v),
            )
            &&& s.skip(parts_bytes(field_value_parts(n, v)).len() as int) == after
            &&& parts_bytes(field_value_parts(n, v)).len() >= k
        }),
{
    let head = field_value_parts(n, v);
    let wt = field_value_wire_type(v);
    let t = tag_value(n, wt);
    lemma_tag_parts(n, wt);
    lemma_tag_parts(n, WireType::EndGroup);
    lemma_varint_roundtrip(t as u64);
    let tb = varint_bytes(t as u64);
    let body = head[1].1;
    assert(head == seq![(true, tb), (head[1].0, body)]);
    reveal_with_fuel(parts_bytes, 3);
    assert(head.drop_first().drop_first() =~= Seq::<(bool, Seq<u8>)>::empty());
    assert(parts_bytes(head) =~= tb + body);
    let s = parts_bytes(head) + after;
    assert(s =~= tb + (body + after));
    lemma_varint_read_encoding(t as u64, body + after);
    assert((t as u64) as u32 == t);
    assert(s.skip(tb.len() as int) =~= body + after);
    lemma_field_value_roundtrip(n, v, after, None);
    assert(s.skip(parts_bytes(head).len() as int) =~= after);
}

/// The bytes written for a group, followed by anything: its start tag is read, then its fields
/// and its end tag follow.
proof fn lemma_read_group_start(n: u32, inner: Seq<(u32, Seq<FieldValue>)>, after: Seq<u8>)
    requires
        valid_field_number(n),
    ensures
        ({
            let v = FieldValue::Group(inner);
            let s = parts_bytes(field_value_parts(n, v)) + after;
            let t = tag_value(n, WireType::StartGroup);
            let k = varint_len(t as u64) as int;
            let end2 = tag_value(n, WireType::EndGroup);
            &&& tag_read(s, None) == Ok::<(int, Option<u32>), ReadError>((k, Some(t)))
            &&& varint_read(s) == Ok::<(int, u64), ReadError>((k, t as u64))
            &&& valid_tag(t)
            &&& 0 < k <= s.len()
            &&& tag_wire_number(t) != 4
            &&& tag_field(t) == n
            &&& wire_type_from_number(tag_wire_number(t)) == WireType::StartGroup
            &&& valid_tag(end2)
            &&& tag_wire_number(end2) == 4
            &&& s.skip(k) == parts_bytes(set_parts(inner)) + varint_bytes(end2 as u64) + after
            &&& parts_bytes(field_value_parts(n, v)).len() == k + parts_bytes(set_parts(inner)).len()
                + varint_len(end2 as u64)
        }),
{
    let v = FieldValue::Group(inner);
    let head = field_value_parts(n, v);
    let t = tag_value(n, WireType::StartGroup);
    let end2 = tag_value(n, WireType::EndGroup);
    lemma_tag_parts(n, WireType::StartGroup);
    lemma_tag_parts(n, WireType::EndGroup);
    lemma_varint_roundtrip(t as u64);
    lemma_varint_roundtrip(end2 as u64);
    let tb = varint_bytes(t as u64);
    let e2 = varint_bytes(end2 as u64);
    let ib = parts_bytes(set_parts(inner));
    assert(head == seq![(true, tb)] + set_parts(inner) + seq![(true, e2)]);
    lemma_parts_bytes_append(seq![(true, tb)] + set_parts(inner), seq![(true, e2)]);
    lemma_parts_bytes_append(seq![(true, tb)], set_parts(inner));
    reveal_with_fuel(parts_bytes, 2);
    assert(seq![(true, tb)].drop_first() =~= Seq::<(bool, Seq<u8>)>::empty());
    assert(seq![(true, e2)].drop_first() =~= Seq::<(bool, Seq<u8>)>::empty());
    assert(parts_bytes(seq![(true, tb)]) =~= tb);
    assert(parts_bytes(seq![(true, e2)]) =~= e2);
    assert(parts_bytes(head) =~= tb + ib + e2);
    let s = parts_bytes(head) + after;
    assert(s =~= tb + (ib + e2 + after));
    lemma_varint_read_encoding(t as u64, ib + e2 + after);
    assert((t as u64) as u32 == t);
    assert(s.skip(tb.len() as int) =~= ib + e2 + after);
}

/// The bytes written for an unknown field value that is read back as written, followed by
/// anything, outside any group: its tag is read, then the value, taking all the bytes written
/// for it.
#[verifier::spinoff_prover]
pub proof fn lemma_read_value_bytes(n: u32, v: FieldValue, after: Seq<u8>)
    requires
        value_readable(n, v),
    ensures
        ({
            let s = parts_bytes(field_value_parts(n, v)) + after;
            let t = tag_value(n, field_value_wire_type(v));
            let k = varint_len(t as u64) as int;
            let hl = parts_bytes(field_value_parts(n, v)).len() as int;
            &&& varint_read(s) == Ok::<(int, u64), ReadError>((k, t as u64))
            &&& tag_read(s, None) == Ok::<(int, Option<u32>), ReadError>((k, Some(t)))
            &&& 0 < k <= hl <= s.len()
            &&& valid_tag(t)
            &&& tag_wire_number(t) != 4
            &&& tag_field(t) == n
            &&& field_value_read(s.skip(k), t, None) == Ok::<(int, FieldValue), ReadError>((hl - k, v))
            &&& s.skip(hl) == after
        }),
    decreases parts_bytes(field_value_parts(n, v)).len(), 0nat,
{
    let s = parts_bytes(field_value_parts(n, v)) + after;
    let t = tag_value(n, field_value_wire_type(v));
    let k = varint_len(t as u64) as int;
    let hl = parts_bytes(field_value_parts(n, v)).len() as int;
    if v is Group {
        let inner = v->Group_0;
        let end2 = tag_value(n, WireType::EndGroup);
        lemma_read_group_start(n, inner, after);
        lemma_set_pairs(inner, Seq::empty());
        lemma_entries_readable(inner);
        lemma_read_pairs(set_pairs(inner), end2, Seq::empty(), after);
        lemma_merge_into_empty(inner);
        assert(group_read(s.skip(k), end2, None, Seq::empty()) == Ok::<(int, Seq<(u32, Seq<FieldValue>)>), ReadError>(
            (hl - k, inner),
        ));
        assert(s.skip(hl) =~= after);
    } else {
        lemma_read_plain_value(n, v, after);
    }
}

/// Reading the fields of a group from the bytes of values written one after the other, then
/// its end tag, adds the values one after the other and takes all those bytes, whatever
/// follows them, outside any other group.
#[verifier::spinoff_prover]
#[verifier::rlimit(40)]
proof fn lemma_read_pairs(ps: Seq<(u32, FieldValue)>, end: u32, acc: Seq<(u32, Seq<FieldValue>)>, rest: Seq<u8>)
    requires
        forall|k: int| 0 <= k < ps.len() ==> value_readable(#[trigger] ps[k].0, ps[k].1),
        valid_tag(end),
        tag_wire_number(end) == 4,
    ensures
        group_read(
            parts_bytes(pairs_parts(ps)) + varint_bytes(end as u64) + rest,
            end,
            None,
            acc,
        ) == Ok::<(int, Seq<(u32, Seq<FieldValue>)>), ReadError>(
            ((parts_bytes(pairs_parts(ps)).len() + varint_len(end as u64)) as int, push_pairs(acc, ps)),
        ),
    decreases parts_bytes(pairs_parts(ps)).len(), 1nat,
{
    let b = parts_bytes(pairs_parts(ps));
    let e = varint_bytes(end as u64);
    let s = b + e + rest;
    lemma_varint_roundtrip(end as u64);
    if ps.len() == 0 {
        assert(b =~= Seq::<u8>::empty());
        assert(s =~= e + rest);
        lemma_varint_read_encoding(end as u64, rest);
        assert(tag_read(s, None) == Ok::<(int, Option<u32>), ReadError>((varint_len(end as u64) as int, Some(end))));
    } else {
        let n = ps[0].0;
        let v = ps[0].1;
        let tail = ps.drop_first();
        assert forall|k: int| 0 <= k < tail.len() implies value_readable(#[trigger] tail[k].0, tail[k].1) by {
            assert(tail[k] == ps[k + 1]);
        }
        assert(value_readable(ps[0].0, ps[0].1));
        let head = field_value_parts(n, v);
        let bt = parts_bytes(pairs_parts(tail));
        lemma_parts_bytes_append(head, pairs_parts(tail));
        let after = bt + e + rest;
        assert(s =~= parts_bytes(head) + after);
        let hl = parts_bytes(head).len();
        let t = tag_value(n, field_value_wire_type(v));
        let k = varint_len(t as u64) as int;
        lemma_read_value_bytes(n, v, after);
        assert(t != end);
        lemma_read_pairs(tail, end, view_push(acc, n, v), rest);
        assert(s.skip(k + (hl - k)) == after);
        assert(b.len() == hl + bt.len());
    }
}

/// A set written as the fields of a group is read back as the same set: reading the group's
/// fields up to its end tag `end`, outside any other group, gives each field number its values
/// in the order they were written and takes all the bytes written, whatever follows them.
pub proof fn lemma_set_roundtrip(es: Seq<(u32, Seq<FieldValue>)>, end: u32, rest: Seq<u8>)
    requires
        set_readable(es),
        valid_tag(end),
        tag_wire_number(end) == 4,
    ensures
        group_read(
            parts_bytes(set_parts(es)) + varint_bytes(end as u64) + rest,
            end,
            None,
            Seq::empty(),
        ) == Ok::<(int, Seq<(u32, Seq<FieldValue>)>), ReadError>(
            ((parts_bytes(set_parts(es)).len() + varint_len(end as u64)) as int, es),
        ),
{
    lemma_set_pairs(es, Seq::empty());
    lemma_entries_readable(es);
    lemma_read_pairs(set_pairs(es), end, Seq::empty(), rest);
    lemma_merge_into_empty(es);
}

/// Reading fields from pairs written one after the other, with nothing after them, reads every
/// pair and all the bytes.
proof fn lemma_read_pairs_to_end(ps: Seq<(u32, FieldValue)>, end: u32, acc: Seq<(u32, Seq<FieldValue>)>)
    requires
        forall|k: int| 0 <= k < ps.len() ==> value_readable(#[trigger] ps[k].0, ps[k].1),
        valid_tag(end),
        tag_wire_number(end) == 4,
    ensures
        group_read(parts_bytes(pairs_parts(ps)), end, None, acc) == Ok::<(int, Seq<(u32, Seq<FieldValue>)>), ReadError>(
            (parts_bytes(pairs_parts(ps)).len() as int, push_pairs(acc, ps)),
        ),
    decreases parts_bytes(pairs_parts(ps)).len(), 1nat,
{
    let s = parts_bytes(pairs_parts(ps));
    if ps.len() == 0 {
        assert(s =~= Seq::<u8>::empty());
    } else {
        let n = ps[0].0;
        let v = ps[0].1;
        let tail = ps.drop_first();
        assert forall|k: int| 0 <= k < tail.len() implies value_readable(#[trigger] tail[k].0, tail[k].1) by {
            assert(tail[k] == ps[k + 1]);
        }
        assert(value_readable(ps[0].0, ps[0].1));
        let head = field_value_parts(n, v);
        let after = parts_bytes(pairs_parts(tail));
        lemma_parts_bytes_append(head, pairs_parts(tail));
        assert(s =~= parts_bytes(head) + after);
        let hl = parts_bytes(head).len();
        let t = tag_value(n, field_value_wire_type(v));
        let k = varint_len(t as u64) as int;
        lemma_read_value_bytes(n, v, after);
        assert(t != end);
        lemma_read_pairs_to_end(tail, end, view_push(acc, n, v));
        assert(s.skip(k + (hl - k)) == after);
        assert(s.len() == hl + after.len());
    }
}

/// A set written on its own is read back as the same set: reading fields from the bytes written
/// until the input ends, outside any group, gives each field number its values in the order
/// they were written and takes all the bytes written. (`end` is any end-group tag; none is
/// written, so reading never stops at it.)
pub proof fn lemma_set_roundtrip_to_end(es: Seq<(u32, Seq<FieldValue>)>, end: u32)
    requires
        set_readable(es),
        valid_tag(end),
        tag_wire_number(end) == 4,
    ensures
        group_read(parts_bytes(set_parts(es)), end, None, Seq::empty()) == Ok::<
            (int, Seq<(u32, Seq<FieldValue>)>),
            ReadError,
        >((parts_bytes(set_parts(es)).len() as int, es)),
{
    lemma_set_pairs(es, Seq::empty());
    lemma_entries_readable(es);
    lemma_read_pairs_to_end(set_pairs(es), end, Seq::empty());
    lemma_merge_into_empty(es);
}

impl<'a> CodedReader<'a> {
    /// Tries to add the field whose tag was the last one read to the set, by
    /// `UnknownFieldSet::try_add_field_from`.
    pub fn try_add_field_to(&mut self, value: &mut UnknownFieldSet) -> (r: ReadResult<TryRead>)
        ensures
            ({
                let yields = old(self).unknown_field_handling_view() == UnknownFieldHandling::Skip
                    || (old(self).last_tag_view() matches Some(t) && tag_wire_number(t@) == 4);
                &&& yields ==> r == Ok::<TryRead, ReadError>(TryRead::Yielded) && *final(value) == *old(value)
                    && *final(self) == *old(self)
                &&& !yields ==> match old(self).last_tag_view() {
                    None => r == Ok::<TryRead, ReadError>(TryRead::Consumed) && *final(value) == *old(value),
                    Some(t) => match field_value_read(old(self).available(), t@, old(self).end_group_view()) {
                        Ok((n, v)) => {
                            &&& r == Ok::<TryRead, ReadError>(TryRead::Consumed)
                            &&& final(value)@ == view_push(old(value)@, tag_field(t@), v)
                            &&& n >= 0
                            &&& final(self).position() == old(self).position() + n
                            &&& same_state(*old(self), *final(self))
                        },
                        Err(e) => r == Err::<TryRead, ReadError>(e) && final(value)@ == old(value)@
                            && same_state(*old(self), *final(self)),
                    },
                }
            }),
    {
        value.try_add_field_from(self)
    }
}


/// With distinct field numbers, the values of field `m` are those of the entry numbered `m`.
proof fn lemma_field_values_at(es: Seq<(u32, Seq<FieldValue>)>, m: u32, j: int)
    requires
        numbers_distinct(es),
        0 <= j < es.len(),
        es[j].0 == m,
    ensures
        field_values(es, m) == es[j].1,
{
    lemma_entry_index(es, m, j);
}

/// With distinct field numbers, a field no entry is numbered with has no values; where the
/// field has an entry, it is at its entry index.
proof fn lemma_field_values_absent(es: Seq<(u32, Seq<FieldValue>)>, m: u32)
    requires
        numbers_distinct(es),
    ensures
        entry_index(es, m) < 0 ==> forall|k: int| 0 <= k < es.len() ==> #[trigger] es[k].0 != m,
        entry_index(es, m) < 0 ==> field_values(es, m) == Seq::<FieldValue>::empty(),
        entry_index(es, m) >= 0 ==> es[entry_index(es, m)].0 == m,
        -1 <= entry_index(es, m) < es.len(),
{
    lemma_entry_index(es, m, -1);
    if entry_index(es, m) < 0 {
        assert forall|k: int| 0 <= k < es.len() implies #[trigger] es[k].0 != m by {
            if es[k].0 == m {
                lemma_entry_index(es, m, k);
            }
        }
    }
}

/// Adding a value to a field puts it after the field's values and changes no other field;
/// the field numbers stay distinct.
pub proof fn lemma_push_values(es: Seq<(u32, Seq<FieldValue>)>, n: u32, v: FieldValue, m: u32)
    requires
        numbers_distinct(es),
    ensures
        numbers_distinct(view_push(es, n, v)),
        field_values(view_push(es, n, v), m) == if m == n {
            field_values(es, n).push(v)
        } else {
            field_values(es, m)
        },
{
    let i = entry_index(es, n);
    let es2 = view_push(es, n, v);
    lemma_field_values_absent(es, n);
    lemma_field_values_absent(es, m);
    let j = entry_index(es, m);
    if i >= 0 {
        assert forall|a: int, b: int| 0 <= a < b < es2.len() implies #[trigger] es2[a].0 != #[trigger] es2[b].0 by {
            assert(es2[a].0 == es[a].0);
            assert(es2[b].0 == es[b].0);
        }
        if m == n {
            lemma_field_values_at(es2, n, i);
        } else if j >= 0 {
            lemma_field_values_at(es2, m, j);
        } else {
            assert forall|k: int| 0 <= k < es2.len() implies #[trigger] es2[k].0 != m by {
                assert(es2[k].0 == es[k].0);
            }
            lemma_field_values_absent(es2, m);
        }
    } else {
        assert forall|a: int, b: int| 0 <= a < b < es2.len() implies #[trigger] es2[a].0 != #[trigger] es2[b].0 by {
            if b < es.len() {
                assert(es2[a] == es[a] && es2[b] == es[b]);
            } else {
                assert(es2[a] == es[a]);
            }
        }
        if m == n {
            lemma_field_values_at(es2, n, es.len() as int);
            assert(field_values(es, n).push(v) =~= seq![v]);
        } else if j >= 0 {
            lemma_field_values_at(es2, m, j);
        } else {
            assert forall|k: int| 0 <= k < es2.len() implies #[trigger] es2[k].0 != m by {
                if k < es.len() {
                    assert(es2[k] == es[k]);
                }
            }
            lemma_field_values_absent(es2, m);
        }
    }
}

/// Taking out the last value of a field just added to gives back the values every field had.
pub proof fn lemma_push_pop_values(es: Seq<(u32, Seq<FieldValue>)>, n: u32, v: FieldValue, m: u32)
    requires
        numbers_distinct(es),
    ensures
        field_values(view_pop(view_push(es, n, v), n), m) == field_values(es, m),
{
    let es2 = view_push(es, n, v);
    lemma_push_values(es, n, v, n);
    lemma_push_values(es, n, v, m);
    lemma_field_values_absent(es2, n);
    lemma_field_values_absent(es2, m);
    let i2 = entry_index(es2, n);
    assert(i2 >= 0) by {
        if i2 < 0 {
            assert(field_values(es2, n).len() == 0);
        }
    }
    let es3 = view_pop(es2, n);
    assert(es2[i2].1 == field_values(es, n).push(v));
    assert(es3 == es2.update(i2, (n, field_values(es, n).push(v).drop_last())));
    assert(field_values(es, n).push(v).drop_last() =~= field_values(es, n));
    assert forall|a: int, b: int| 0 <= a < b < es3.len() implies #[trigger] es3[a].0 != #[trigger] es3[b].0 by {
        assert(es3[a].0 == es2[a].0);
        assert(es3[b].0 == es2[b].0);
    }
    let j2 = entry_index(es2, m);
    if m == n {
        lemma_field_values_at(es3, n, i2);
    } else if j2 >= 0 {
        lemma_field_values_at(es3, m, j2);
    } else {
        assert forall|k: int| 0 <= k < es3.len() implies #[trigger] es3[k].0 != m by {
            assert(es3[k].0 == es2[k].0);
        }
        lemma_field_values_absent(es3, m);
    }
}

/// Clearing a field leaves it no values and changes no other field; the field numbers stay
/// distinct.
pub proof fn lemma_remove_values(es: Seq<(u32, Seq<FieldValue>)>, n: u32, m: u32)
    requires
        numbers_distinct(es),
    ensures
        numbers_distinct(view_remove(es, n)),
        field_values(view_remove(es, n), m) == if m == n {
            Seq::<FieldValue>::empty()
        } else {
            field_values(es, m)
        },
{
    let i = entry_index(es, n);
    let es2 = view_remove(es, n);
    lemma_field_values_absent(es, n);
    lemma_field_values_absent(es, m);
    let j = entry_index(es, m);
    if i >= 0 {
        let last = es.len() - 1;
        assert forall|k: int| 0 <= k < es2.len() implies #[trigger] es2[k] == if k == i { es[last] } else { es[k] } by {}
        assert forall|a: int, b: int| 0 <= a < b < es2.len() implies #[trigger] es2[a].0 != #[trigger] es2[b].0 by {
            let ea = if a == i { last } else { a };
            let eb = if b == i { last } else { b };
            assert(es2[a] == es[ea] && es2[b] == es[eb]);
            assert(ea != eb);
            if ea < eb {
                assert(es[ea].0 != es[eb].0);
            } else {
                assert(es[eb].0 != es[ea].0);
            }
        }
        if m == n {
            assert forall|k: int| 0 <= k < es2.len() implies #[trigger] es2[k].0 != n by {
                let ek = if k == i { last } else { k };
                assert(es2[k] == es[ek]);
                assert(ek != i);
                if ek < i {
                    assert(es[ek].0 != es[i].0);
                } else {
                    assert(es[i].0 != es[ek].0);
                }
            }
            lemma_field_values_absent(es2, n);
        } else if j >= 0 {
            assert(j != i);
            if j == last {
                lemma_field_values_at(es2, m, i);
            } else {
                lemma_field_values_at(es2, m, j);
            }
        } else {
            assert forall|k: int| 0 <= k < es2.len() implies #[trigger] es2[k].0 != m by {
                let ek = if k == i { last } else { k };
                assert(es2[k] == es[ek]);
            }
            lemma_field_values_absent(es2, m);
        }
    }
}

} // verus!
