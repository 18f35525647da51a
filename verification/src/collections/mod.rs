//! Defines collection types used by generated code for repeated fields.

use vstd::prelude::*;
use crate::io::{
    FieldNumber, Length, LengthBuilder, Tag, WireType, builder_sum, varint_bytes, varint_len,
    raw_varint32_size, lemma_varint_roundtrip, tag_value,
};
use crate::io::read::{varint_read, lemma_varint_read_encoding};
use crate::io::read::{
    self, CodedReader, Error as ReadError, length_delimited_read, moved, same_but_position,
    same_state, lemma_varint_read_len, lemma_length_delimited_read_encoding,
};
use crate::io::write::{
    CodedWriter, parts_written, parts_bytes, parts_encodable, lemma_parts_written_append,
    lemma_parts_bytes_append, lemma_parts_written_fit, lemma_ok_unit, Error as WriteError, Result as WriteResult,
};
use crate::raw::{
    Value, Packable, Packed, Uint32, size_added, field_parts, tag_bytes, parts_size,
};
use crate::Mergable;
use self::unknown_fields::{UnknownFieldSet, set_parts};

pub mod map;
pub mod unknown_fields;

verus! {

/// The type used by generated code to represent a repeated field.
pub type RepeatedField<T> = Vec<T>;

/// The views of a sequence of values.
pub open spec fn views<T: View>(s: Seq<T>) -> Seq<T::V> {
    s.map_values(|x: T| x@)
}

/// The parts the values `vs` of a repeated field with field number `num` are written as,
/// unpacked: one field after the other.
pub open spec fn unpacked_parts<V: Value>(num: u32, vs: Seq<<V::Inner as View>::V>) -> Seq<(bool, Seq<u8>)>
    decreases vs.len(),
{
    if vs.len() == 0 {
        Seq::empty()
    } else {
        unpacked_parts::<V>(num, vs.drop_last()) + field_parts::<V>(num, vs.last())
    }
}

/// The parts the values `vs` are written as inside a packed field: the values one after the
/// other, without tags.
pub open spec fn value_parts<V: Value>(vs: Seq<<V::Inner as View>::V>) -> Seq<(bool, Seq<u8>)>
    decreases vs.len(),
{
    if vs.len() == 0 {
        Seq::empty()
    } else {
        value_parts::<V>(vs.drop_last()).push((V::encodable(vs.last()), V::encoding(vs.last())))
    }
}

/// Whether the values of a packed field can all be written and their bytes fit in a length.
pub open spec fn packed_fits<V: Value>(vs: Seq<<V::Inner as View>::V>) -> bool {
    parts_encodable(value_parts::<V>(vs)) && parts_bytes(value_parts::<V>(vs)).len() <= i32::MAX
}

/// The parts the values `vs` of a packed repeated field with field number `num` are written
/// as: nothing when there are none, else the tag, the length of the values and the values.
/// Values that cannot be written or whose bytes do not fit in a length are refused before
/// anything is written.
pub open spec fn packed_parts<V: Value>(num: u32, vs: Seq<<V::Inner as View>::V>) -> Seq<(bool, Seq<u8>)> {
    if vs.len() == 0 {
        Seq::empty()
    } else {
        seq![
            (packed_fits::<V>(vs), tag_bytes(num, WireType::LengthDelimited)),
            (true, varint_bytes(parts_bytes(value_parts::<V>(vs)).len() as u64)),
        ] + value_parts::<V>(vs)
    }
}

/// The outcome of reading the values of a packed field from all of `b`.
pub open spec fn values_read<V: Value>(b: Seq<u8>) -> read::Result<Seq<<V::Inner as View>::V>>
    decreases b.len(),
{
    if b.len() == 0 {
        Ok(Seq::empty())
    } else {
        match V::decoding(b) {
            Err(e) => Err(e),
            Ok((n, v)) => if 1 <= n <= b.len() {
                match values_read::<V>(b.skip(n)) {
                    Ok(vs) => Ok(seq![v] + vs),
                    Err(e) => Err(e),
                }
            } else {
                Err(read::eof())
            },
        }
    }
}

/// The outcome of reading a packed field's value from the front of `s`: the number of bytes
/// read and the values.
pub open spec fn packed_read<V: Value>(s: Seq<u8>) -> read::Result<(int, Seq<<V::Inner as View>::V>)> {
    match length_delimited_read(s) {
        Err(e) => Err(e),
        Ok((n, b)) => match values_read::<V>(b) {
            Ok(vs) => Ok((n, vs)),
            Err(e) => Err(e),
        },
    }
}

/// A type of value that writes and reads repeated values on the wire.
pub trait RepeatedValue<T> {
    /// The kind of value each entry is viewed as.
    type Entry;

    /// The wire type of tags in this field.
    spec fn spec_wire_type() -> WireType;

    /// The entries of the field, viewed.
    spec fn entries(&self) -> Seq<Self::Entry>;

    /// The parts the entries are written as with field number `num`.
    spec fn parts(&self, num: u32) -> Seq<(bool, Seq<u8>)>;

    /// Whether the field's size can be counted: all its entries can be written and their
    /// lengths fit.
    spec fn countable(&self) -> bool;

    /// What reading the field's value from the front of `s` gives: the number of bytes read
    /// and the entries read.
    spec fn entries_read(s: Seq<u8>) -> read::Result<(int, Seq<Self::Entry>)>;

    /// The field's size can be counted exactly when all its parts can be written.
    proof fn lemma_countable(&self, num: u32)
        ensures
            self.countable() == parts_encodable(self.parts(num)),
    ;

    /// Gets the wire type of tags in this field.
    fn wire_type() -> (r: WireType)
        ensures
            r == Self::spec_wire_type(),
    ;

    /// Adds entries to the repeated field from the coded reader. On an error, some of the
    /// entries read before it may have been added.
    fn add_entries_from(&mut self, input: &mut CodedReader) -> (r: read::Result<()>)
        ensures
            final(input).input() == old(input).input(),
            final(input).end_group_view() == old(input).end_group_view(),
            final(input).depth() == old(input).depth(),
            final(input).recursion_limit() == old(input).recursion_limit(),
            final(input).unknown_field_handling_view() == old(input).unknown_field_handling_view(),
            match Self::entries_read(old(input).available()) {
                Ok((n, es)) => r is Ok && final(self).entries() == old(self).entries() + es
                    && moved(*old(input), *final(input), n),
                Err(e) => r == Err::<(), ReadError>(e) && old(self).entries().is_prefix_of(
                    final(self).entries(),
                ),
            },
    ;

    /// Adds the size of the repeated value to the builder.
    fn calculate_size(&self, builder: LengthBuilder, num: FieldNumber) -> (r: Option<LengthBuilder>)
        ensures
            size_added(builder@ as int, self.countable(), parts_bytes(self.parts(num@)).len() as int, r),
    ;

    /// Writes the value to the coded writer, using the field number for each tag.
    fn write_to(&self, output: &mut CodedWriter, num: FieldNumber) -> (r: WriteResult)
        ensures
            (final(output).written(), r) == parts_written(
                old(output).written(),
                old(output).capacity(),
                self.parts(num@),
            ),
            final(output).capacity() == old(output).capacity(),
            (*final(final(output).target()))@ == (*final(old(output).target()))@,
    ;

    /// Returns whether all the values in the field are initialized; values of these types
    /// always are.
    fn is_initialized(&self) -> (r: bool)
        ensures
            r,
    ;
}

impl<V: Clone> Mergable for Vec<V> {
    /// The entries of `other` come after those of `this`, each a clone of the entry of
    /// `other`.
    open spec fn merge_of(this: Seq<V>, other: Seq<V>, result: Seq<V>) -> bool {
        &&& result.len() == this.len() + other.len()
        &&& forall|i: int| 0 <= i < this.len() ==> #[trigger] result[i] == this[i]
        &&& forall|i: int| 0 <= i < other.len() ==> cloned::<V>(other[i], #[trigger] result[this.len() + i])
    }

    /// Merges two repeated fields by extending this field with the entries of the other.
    fn merge(&mut self, other: &Vec<V>) {
        self.extend_from_slice(other.as_slice());
        proof {
            assert forall|i: int| 0 <= i < other@.len() implies cloned::<V>(
                other@[i],
                #[trigger] self@[old(self)@.len() + i],
            ) by {
                assert(self@[old(self)@.len() + i] == self@[old(self)@.len() + i]);
            }
        }
    }
}

impl LengthBuilder {
    /// Adds the size of the values of a repeated field with field number `num`.
    pub fn add_values<T: RepeatedValue<V>, V>(self, num: FieldNumber, value: &T) -> (r: Option<LengthBuilder>)
        ensures
            size_added(self@ as int, value.countable(), parts_bytes(value.parts(num@)).len() as int, r),
    {
        value.calculate_size(self, num)
    }

    /// Adds the size of the fields in the set.
    pub fn add_fields(self, value: &UnknownFieldSet) -> (r: Option<LengthBuilder>)
        ensures
            size_added(
                self@ as int,
                parts_encodable(set_parts(value@)),
                parts_bytes(set_parts(value@)).len() as int,
                r,
            ),
    {
        value.calculate_size(self)
    }
}

impl Length {
    /// Returns the size of the values of a repeated field with field number `num`: `None`
    /// where a value cannot be written or the size does not fit in a length.
    pub fn of_values<T: RepeatedValue<V>, V>(value: &T, num: FieldNumber) -> (r: Option<Length>)
        ensures
            r matches Some(l) ==> parts_size(value.parts(num@)) == Some(l@ as int),
            r is None ==> parts_size(value.parts(num@)) is None,
    {
        proof {
            value.lemma_countable(num@);
        }
        match LengthBuilder::new().add_values::<T, V>(num, value) {
            Some(b) => Some(b.build()),
            None => None,
        }
    }

    /// Returns the size of the fields in the set: `None` where a field cannot be written or
    /// the size does not fit in a length.
    pub fn of_fields(value: &UnknownFieldSet) -> (r: Option<Length>)
        ensures
            r matches Some(l) ==> parts_size(set_parts(value@)) == Some(l@ as int),
            r is None ==> parts_size(set_parts(value@)) is None,
    {
        match LengthBuilder::new().add_fields(value) {
            Some(b) => Some(b.build()),
            None => None,
        }
    }
}

impl<'a> CodedReader<'a> {
    /// Adds the entries read from the reader to the repeated field. On an error, some of the
    /// entries read before it may have been added.
    pub fn add_entries_to<U: RepeatedValue<V>, V>(&mut self, value: &mut U) -> (r: read::Result<()>)
        ensures
            final(self).input() == old(self).input(),
            final(self).end_group_view() == old(self).end_group_view(),
            final(self).depth() == old(self).depth(),
            final(self).recursion_limit() == old(self).recursion_limit(),
            final(self).unknown_field_handling_view() == old(self).unknown_field_handling_view(),
            match U::entries_read(old(self).available()) {
                Ok((n, es)) => r is Ok && final(value).entries() == old(value).entries() + es
                    && moved(*old(self), *final(self), n),
                Err(e) => r == Err::<(), ReadError>(e) && old(value).entries().is_prefix_of(
                    final(value).entries(),
                ),
            },
    {
        value.add_entries_from(self)
    }
}

impl<'a> CodedWriter<'a> {
    /// Writes the values of a repeated field with field number `num`.
    pub fn write_values<U: RepeatedValue<V>, V>(&mut self, value: &U, num: FieldNumber) -> (r: WriteResult)
        ensures
            (final(self).written(), r) == parts_written(
                old(self).written(),
                old(self).capacity(),
                value.parts(num@),
            ),
            final(self).capacity() == old(self).capacity(),
            (*final(final(self).target()))@ == (*final(old(self).target()))@,
    {
        value.write_to(self, num)
    }

    /// Writes the fields in the set.
    pub fn write_fields(&mut self, value: &UnknownFieldSet) -> (r: WriteResult)
        ensures
            (final(self).written(), r) == parts_written(
                old(self).written(),
                old(self).capacity(),
                set_parts(value@),
            ),
            final(self).capacity() == old(self).capacity(),
            (*final(final(self).target()))@ == (*final(old(self).target()))@,
    {
        value.write_to(self)
    }
}

/// The bytes of a field's parts are its encoding.
pub proof fn lemma_field_parts_bytes<V: Value>(num: u32, v: <V::Inner as View>::V)
    ensures
        parts_bytes(field_parts::<V>(num, v)) == crate::raw::field_encoding::<V>(num, v),
        parts_encodable(field_parts::<V>(num, v)) == V::encodable(v),
{
    reveal_with_fuel(parts_bytes, 4);
    let p = field_parts::<V>(num, v);
    if V::spec_wire_type() == WireType::StartGroup {
        assert(p.drop_first().drop_first().drop_first() =~= Seq::<(bool, Seq<u8>)>::empty());
    } else {
        assert(p.drop_first().drop_first() =~= Seq::<(bool, Seq<u8>)>::empty());
    }
    assert(parts_bytes(p) =~= crate::raw::field_encoding::<V>(num, v));
    if !V::encodable(v) {
        assert(!p[1].0);
    }
}

/// The unpacked parts of two runs of values are those of the first run, then those of the
/// second.
pub proof fn lemma_unpacked_parts_append<V: Value>(
    num: u32,
    a: Seq<<V::Inner as View>::V>,
    b: Seq<<V::Inner as View>::V>,
)
    ensures
        unpacked_parts::<V>(num, a + b) == unpacked_parts::<V>(num, a) + unpacked_parts::<V>(num, b),
    decreases b.len(),
{
    if b.len() == 0 {
        assert(a + b =~= a);
        assert(unpacked_parts::<V>(num, a) + unpacked_parts::<V>(num, b) =~= unpacked_parts::<V>(num, a));
    } else {
        assert((a + b).drop_last() =~= a + b.drop_last());
        assert((a + b).last() == b.last());
        lemma_unpacked_parts_append::<V>(num, a, b.drop_last());
        assert(unpacked_parts::<V>(num, a + b) =~= unpacked_parts::<V>(num, a) + unpacked_parts::<V>(num, b));
    }
}

/// The unpacked parts of some values can all be written exactly when the values can.
pub proof fn lemma_unpacked_parts_encodable<V: Value>(num: u32, vs: Seq<<V::Inner as View>::V>)
    ensures
        parts_encodable(unpacked_parts::<V>(num, vs)) == (forall|i: int| 0 <= i < vs.len() ==> V::encodable(
            #[trigger] vs[i],
        )),
    decreases vs.len(),
{
    if vs.len() > 0 {
        let d = vs.drop_last();
        lemma_unpacked_parts_encodable::<V>(num, d);
        lemma_field_parts_bytes::<V>(num, vs.last());
        lemma_parts_encodable_append(unpacked_parts::<V>(num, d), field_parts::<V>(num, vs.last()));
        if forall|i: int| 0 <= i < vs.len() ==> V::encodable(#[trigger] vs[i]) {
            assert forall|i: int| 0 <= i < d.len() implies V::encodable(#[trigger] d[i]) by {
                assert(d[i] == vs[i]);
            }
            assert(V::encodable(vs[vs.len() - 1]));
        }
        if parts_encodable(unpacked_parts::<V>(num, vs)) {
            assert forall|i: int| 0 <= i < vs.len() implies V::encodable(#[trigger] vs[i]) by {
                if i < vs.len() - 1 {
                    assert(d[i] == vs[i]);
                }
            }
        }
    }
}

/// The value parts of two runs of values are those of the first run, then those of the second.
pub proof fn lemma_value_parts_append<V: Value>(
    a: Seq<<V::Inner as View>::V>,
    b: Seq<<V::Inner as View>::V>,
)
    ensures
        value_parts::<V>(a + b) == value_parts::<V>(a) + value_parts::<V>(b),
    decreases b.len(),
{
    if b.len() == 0 {
        assert(a + b =~= a);
        assert(value_parts::<V>(a) + value_parts::<V>(b) =~= value_parts::<V>(a));
    } else {
        assert((a + b).drop_last() =~= a + b.drop_last());
        assert((a + b).last() == b.last());
        lemma_value_parts_append::<V>(a, b.drop_last());
        assert(value_parts::<V>(a + b) =~= value_parts::<V>(a) + value_parts::<V>(b));
    }
}

/// Reading values one after the other from the bytes of values that can all be written gives
/// the values back.
pub proof fn lemma_values_read_encoding<V: Value>(vs: Seq<<V::Inner as View>::V>)
    requires
        forall|i: int| 0 <= i < vs.len() ==> V::encodable(#[trigger] vs[i]),
    ensures
        values_read::<V>(parts_bytes(value_parts::<V>(vs))) == Ok::<Seq<<V::Inner as View>::V>, ReadError>(vs),
    decreases vs.len(),
{
    if vs.len() == 0 {
        assert(parts_bytes(value_parts::<V>(vs)) =~= Seq::<u8>::empty());
        assert(vs =~= Seq::<<V::Inner as View>::V>::empty());
    } else {
        let v0 = vs[0];
        let tail = vs.drop_first();
        assert forall|i: int| 0 <= i < tail.len() implies V::encodable(#[trigger] tail[i]) by {
            assert(tail[i] == vs[i + 1]);
        }
        lemma_values_read_encoding::<V>(tail);
        assert(vs =~= seq![v0] + tail);
        lemma_value_parts_append::<V>(seq![v0], tail);
        let head = value_parts::<V>(seq![v0]);
        assert(seq![v0].drop_last() =~= Seq::<<V::Inner as View>::V>::empty());
        reveal_with_fuel(value_parts, 2);
        assert(head =~= seq![(V::encodable(v0), V::encoding(v0))]);
        lemma_parts_bytes_append(head, value_parts::<V>(tail));
        reveal_with_fuel(parts_bytes, 2);
        assert(head.drop_first() =~= Seq::<(bool, Seq<u8>)>::empty());
        assert(parts_bytes(head) =~= V::encoding(v0));
        let t = parts_bytes(value_parts::<V>(tail));
        let b = V::encoding(v0) + t;
        assert(parts_bytes(value_parts::<V>(vs)) == b);
        V::lemma_roundtrip(v0, t);
        V::lemma_decoding_len(b);
        assert(b.skip(V::encoding(v0).len() as int) =~= t);
        assert(seq![v0] + tail =~= vs);
    }
}

/// A packed field's values, written after its tag as their length and their bytes, are read
/// back as the same values, taking all the bytes written for them, whatever follows them.
pub proof fn lemma_packed_roundtrip<V: Value>(vs: Seq<<V::Inner as View>::V>, rest: Seq<u8>)
    requires
        packed_fits::<V>(vs),
    ensures
        ({
            let b = parts_bytes(value_parts::<V>(vs));
            packed_read::<V>(varint_bytes(b.len() as u64) + b + rest) == Ok::<(int, Seq<<V::Inner as View>::V>), ReadError>(
                ((varint_len(b.len() as u64) + b.len()) as int, vs),
            )
        }),
{
    let b = parts_bytes(value_parts::<V>(vs));
    lemma_length_delimited_read_encoding(b, rest);
    lemma_value_parts_encodable::<V>(vs);
    lemma_values_read_encoding::<V>(vs);
}

/// The values of a packed field can all be written exactly when each of them can.
pub proof fn lemma_value_parts_encodable<V: Value>(vs: Seq<<V::Inner as View>::V>)
    ensures
        value_parts::<V>(vs).len() == vs.len(),
        parts_encodable(value_parts::<V>(vs)) == forall|i: int| 0 <= i < vs.len() ==> V::encodable(#[trigger] vs[i]),
    decreases vs.len(),
{
    if vs.len() > 0 {
        let d = vs.drop_last();
        lemma_value_parts_encodable::<V>(d);
        let p = value_parts::<V>(vs);
        assert(p == value_parts::<V>(d).push((V::encodable(vs.last()), V::encoding(vs.last()))));
        if parts_encodable(p) {
            assert forall|i: int| 0 <= i < vs.len() implies V::encodable(#[trigger] vs[i]) by {
                if i < d.len() {
                    assert(p[i] == value_parts::<V>(d)[i]);
                    assert(d[i] == vs[i]);
                    assert(parts_encodable(value_parts::<V>(d))) by {
                        assert forall|k: int| 0 <= k < value_parts::<V>(d).len() implies #[trigger] value_parts::<V>(d)[k].0 by {
                            assert(p[k] == value_parts::<V>(d)[k]);
                        }
                    }
                } else {
                    assert(p[vs.len() - 1].0);
                }
            }
        }
        if forall|i: int| 0 <= i < vs.len() ==> V::encodable(#[trigger] vs[i]) {
            assert forall|i: int| 0 <= i < d.len() implies V::encodable(#[trigger] d[i]) by {
                assert(d[i] == vs[i]);
            }
            assert forall|k: int| 0 <= k < p.len() implies #[trigger] p[k].0 by {
                if k < p.len() - 1 {
                    assert(p[k] == value_parts::<V>(d)[k]);
                } else {
                    assert(V::encodable(vs[vs.len() - 1]));
                }
            }
        }
    }
}

/// The parts of values written unpacked are those of the first value, then those of the
/// others.
pub proof fn lemma_unpacked_front<V: Value>(num: u32, vs: Seq<<V::Inner as View>::V>)
    requires
        vs.len() > 0,
    ensures
        unpacked_parts::<V>(num, vs) == field_parts::<V>(num, vs[0]) + unpacked_parts::<V>(num, vs.drop_first()),
{
    let one = seq![vs[0]];
    lemma_unpacked_parts_append::<V>(num, one, vs.drop_first());
    assert(one + vs.drop_first() =~= vs);
    reveal_with_fuel(unpacked_parts, 2);
    assert(one.drop_last() =~= Seq::<<V::Inner as View>::V>::empty());
    assert(unpacked_parts::<V>(num, one) =~= field_parts::<V>(num, vs[0]));
}

/// The bytes of a field of a value other than a group, followed by anything: its tag is read,
/// then its value, taking all the bytes written for it.
pub proof fn lemma_field_bytes_read<V: Value>(num: u32, x: <V::Inner as View>::V, after: Seq<u8>)
    requires
        V::spec_wire_type() != WireType::StartGroup,
        V::encodable(x),
    ensures
        ({
            let s = parts_bytes(field_parts::<V>(num, x)) + after;
            let t = tag_value(num, V::spec_wire_type());
            let k = varint_len(t as u64) as int;
            let hl = parts_bytes(field_parts::<V>(num, x)).len() as int;
            &&& varint_read(s) == Ok::<(int, u64), ReadError>((k, t as u64))
            &&& 0 < k <= hl <= s.len()
            &&& V::decoding(s.skip(k)) == Ok::<(int, <V::Inner as View>::V), ReadError>((hl - k, x))
            &&& s.skip(hl) == after
        }),
{
    lemma_field_parts_bytes::<V>(num, x);
    let t = tag_value(num, V::spec_wire_type());
    lemma_varint_roundtrip(t as u64);
    let tb = tag_bytes(num, V::spec_wire_type());
    let e = V::encoding(x);
    assert(crate::raw::field_encoding::<V>(num, x) =~= tb + e);
    let s = tb + e + after;
    assert(s =~= tb + (e + after));
    lemma_varint_read_encoding(t as u64, e + after);
    assert(s.skip(tb.len() as int) =~= e + after);
    V::lemma_roundtrip(x, after);
    assert(s.skip((tb.len() + e.len()) as int) =~= after);
}

/// The bytes of a packed field with values, followed by anything: its tag is read, then the
/// values, taking all the bytes written for them.
pub proof fn lemma_packed_bytes_read<V: Value>(num: u32, vs: Seq<<V::Inner as View>::V>, after: Seq<u8>)
    requires
        vs.len() > 0,
        packed_fits::<V>(vs),
    ensures
        ({
            let s = parts_bytes(packed_parts::<V>(num, vs)) + after;
            let t = tag_value(num, WireType::LengthDelimited);
            let k = varint_len(t as u64) as int;
            let hl = parts_bytes(packed_parts::<V>(num, vs)).len() as int;
            &&& varint_read(s) == Ok::<(int, u64), ReadError>((k, t as u64))
            &&& 0 < k <= hl <= s.len()
            &&& packed_read::<V>(s.skip(k)) == Ok::<(int, Seq<<V::Inner as View>::V>), ReadError>((hl - k, vs))
            &&& s.skip(hl) == after
        }),
{
    let b = parts_bytes(value_parts::<V>(vs));
    let t = tag_value(num, WireType::LengthDelimited);
    let tb = tag_bytes(num, WireType::LengthDelimited);
    let lb = varint_bytes(b.len() as u64);
    let head = seq![(packed_fits::<V>(vs), tb), (true, lb)];
    assert(packed_parts::<V>(num, vs) == head + value_parts::<V>(vs));
    lemma_parts_bytes_append(head, value_parts::<V>(vs));
    reveal_with_fuel(parts_bytes, 3);
    assert(head.drop_first().drop_first() =~= Seq::<(bool, Seq<u8>)>::empty());
    assert(parts_bytes(head) =~= tb + lb);
    let s = tb + lb + b + after;
    assert(parts_bytes(packed_parts::<V>(num, vs)) + after =~= s);
    assert(s =~= tb + (lb + b + after));
    lemma_varint_roundtrip(t as u64);
    lemma_varint_roundtrip(b.len() as u64);
    lemma_varint_read_encoding(t as u64, lb + b + after);
    lemma_packed_roundtrip::<V>(vs, after);
    assert(s.skip(tb.len() as int) =~= lb + b + after);
    assert(s.skip((tb.len() + lb.len() + b.len()) as int) =~= after);
}

/// Two runs of parts can both be written exactly when their concatenation can.
pub proof fn lemma_parts_encodable_append(p1: Seq<(bool, Seq<u8>)>, p2: Seq<(bool, Seq<u8>)>)
    ensures
        parts_encodable(p1 + p2) == (parts_encodable(p1) && parts_encodable(p2)),
{
    if parts_encodable(p1) && parts_encodable(p2) {
        assert forall|i: int| 0 <= i < (p1 + p2).len() implies #[trigger] (p1 + p2)[i].0 by {
            if i >= p1.len() {
                assert((p1 + p2)[i] == p2[i - p1.len()]);
            }
        }
    }
    if parts_encodable(p1 + p2) {
        assert forall|i: int| 0 <= i < p1.len() implies #[trigger] p1[i].0 by {
            assert((p1 + p2)[i] == p1[i]);
        }
        assert forall|i: int| 0 <= i < p2.len() implies #[trigger] p2[i].0 by {
            assert((p1 + p2)[i + p1.len()] == p2[i]);
        }
    }
}

/// Writing the unpacked parts of some values, when those of a first run of them fail, fails
/// the same way.
proof fn lemma_parts_written_prefix_err(
    before: Seq<u8>,
    cap: nat,
    p1: Seq<(bool, Seq<u8>)>,
    p2: Seq<(bool, Seq<u8>)>,
)
    requires
        parts_written(before, cap, p1).1 is Err,
    ensures
        parts_written(before, cap, p1 + p2) == parts_written(before, cap, p1),
{
    lemma_parts_written_append(before, cap, p1, p2);
}

impl<V: Value> RepeatedValue<V> for Vec<V::Inner> {
    type Entry = <V::Inner as View>::V;

    open spec fn spec_wire_type() -> WireType {
        V::spec_wire_type()
    }

    open spec fn entries(&self) -> Seq<<V::Inner as View>::V> {
        views(self@)
    }

    open spec fn parts(&self, num: u32) -> Seq<(bool, Seq<u8>)> {
        unpacked_parts::<V>(num, views(self@))
    }

    open spec fn countable(&self) -> bool {
        forall|i: int| 0 <= i < self@.len() ==> V::encodable(#[trigger] self@[i]@)
    }

    open spec fn entries_read(s: Seq<u8>) -> read::Result<(int, Seq<<V::Inner as View>::V>)> {
        match V::decoding(s) {
            Ok((n, v)) => Ok((n, seq![v])),
            Err(e) => Err(e),
        }
    }

    proof fn lemma_countable(&self, num: u32) {
        lemma_unpacked_parts_encodable::<V>(num, views(self@));
        if <Self as RepeatedValue<V>>::countable(self) {
            assert forall|i: int| 0 <= i < views(self@).len() implies V::encodable(#[trigger] views(self@)[i]) by {
                assert(views(self@)[i] == self@[i]@);
            }
        }
        if forall|i: int| 0 <= i < views(self@).len() ==> V::encodable(#[trigger] views(self@)[i]) {
            assert forall|i: int| 0 <= i < self@.len() implies V::encodable(#[trigger] self@[i]@) by {
                assert(views(self@)[i] == self@[i]@);
            }
        }
    }

    fn wire_type() -> (r: WireType) {
        V::wire_type()
    }

    #[verifier::spinoff_prover]
    fn add_entries_from(&mut self, input: &mut CodedReader) -> (r: read::Result<()>) {
        match V::read_new(input) {
            Ok(v) => {
                self.push(v);
                assert(views(self@) =~= views(old(self)@) + seq![v@]);
                Ok(())
            },
            Err(e) => Err(e),
        }
    }

    #[verifier::spinoff_prover]
    fn calculate_size(&self, builder: LengthBuilder, num: FieldNumber) -> (r: Option<LengthBuilder>) {
        let ghost vs = views(self@);
        let mut b = builder;
        let mut i: usize = 0;
        while i < self.len()
            invariant
                vs == views(self@),
                i <= self@.len(),
                b@ == builder@ + parts_bytes(unpacked_parts::<V>(num@, vs.take(i as int))).len(),
                forall|j: int| 0 <= j < i ==> V::encodable(#[trigger] self@[j]@),
            decreases self@.len() - i,
        {
            let ghost before = unpacked_parts::<V>(num@, vs.take(i as int));
            let ghost after = unpacked_parts::<V>(num@, vs.take(i + 1));
            proof {
                assert(vs.take(i + 1).drop_last() =~= vs.take(i as int));
                assert(vs.take(i + 1).last() == self@[i as int]@);
                lemma_field_parts_bytes::<V>(num@, self@[i as int]@);
                lemma_parts_bytes_append(before, field_parts::<V>(num@, self@[i as int]@));
                lemma_unpacked_parts_append::<V>(num@, vs.take(i + 1), vs.skip(i + 1));
                assert(vs.take(i + 1) + vs.skip(i + 1) =~= vs);
                lemma_parts_bytes_append(after, unpacked_parts::<V>(num@, vs.skip(i + 1)));
            }
            match b.add_field::<V>(num, &self[i]) {
                Some(n) => {
                    b = n;
                },
                None => {
                    return None;
                },
            }
            i = i + 1;
        }
        proof {
            assert(vs.take(i as int) =~= vs);
        }
        Some(b)
    }

    #[verifier::spinoff_prover]
    fn write_to(&self, output: &mut CodedWriter, num: FieldNumber) -> (r: WriteResult) {
        let ghost vs = views(self@);
        let ghost start = output.written();
        let ghost cap = output.capacity();
        let mut i: usize = 0;
        while i < self.len()
            invariant
                vs == views(self@),
                i <= self@.len(),
                start == old(output).written(),
                cap == old(output).capacity(),
                output.capacity() == cap,
                (*final(output.target()))@ == (*final(old(output).target()))@,
                parts_written(start, cap, unpacked_parts::<V>(num@, vs.take(i as int))).0 == output.written(),
                parts_written(start, cap, unpacked_parts::<V>(num@, vs.take(i as int))).1 is Ok,
            decreases self@.len() - i,
        {
            let ghost before = unpacked_parts::<V>(num@, vs.take(i as int));
            let ghost after = unpacked_parts::<V>(num@, vs.take(i + 1));
            proof {
                assert(vs.take(i + 1).drop_last() =~= vs.take(i as int));
                assert(vs.take(i + 1).last() == self@[i as int]@);
                assert(after == before + field_parts::<V>(num@, self@[i as int]@));
                lemma_parts_written_append(start, cap, before, field_parts::<V>(num@, self@[i as int]@));
                lemma_unpacked_parts_append::<V>(num@, vs.take(i + 1), vs.skip(i + 1));
                assert(vs.take(i + 1) + vs.skip(i + 1) =~= vs);
            }
            match output.write_field::<V>(num, &self[i]) {
                Ok(()) => {},
                Err(e) => {
                    proof {
                        lemma_parts_written_prefix_err(start, cap, after, unpacked_parts::<V>(num@, vs.skip(i + 1)));
                    }
                    return Err(e);
                },
            }
            i = i + 1;
        }
        proof {
            assert(vs.take(i as int) =~= vs);
            lemma_ok_unit(parts_written(start, cap, unpacked_parts::<V>(num@, vs)).1);
        }
        Ok(())
    }

    fn is_initialized(&self) -> (r: bool) {
        true
    }
}

/// The total size of the values of a packed field, `None` if one cannot be written or the
/// total does not fit in a length.
fn values_size<V: Value>(values: &Vec<V::Inner>) -> (r: Option<LengthBuilder>)
    ensures
        r matches Some(b) ==> packed_fits::<V>(views(values@)) && b@ == parts_bytes(
            value_parts::<V>(views(values@)),
        ).len(),
        r is None ==> !packed_fits::<V>(views(values@)),
{
    let ghost vs = views(values@);
    let mut b = LengthBuilder::new();
    let mut i: usize = 0;
    while i < values.len()
        invariant
            vs == views(values@),
            i <= values@.len(),
            b@ == parts_bytes(value_parts::<V>(vs.take(i as int))).len(),
            parts_encodable(value_parts::<V>(vs.take(i as int))),
        decreases values@.len() - i,
    {
        let ghost before = value_parts::<V>(vs.take(i as int));
        let ghost item = (V::encodable(values@[i as int]@), V::encoding(values@[i as int]@));
        proof {
            assert(vs.take(i + 1).drop_last() =~= vs.take(i as int));
            assert(value_parts::<V>(vs.take(i + 1)) == before.push(item));
            assert(before.push(item) =~= before + seq![item]);
            reveal_with_fuel(parts_bytes, 2);
            assert(seq![item].drop_first() =~= Seq::<(bool, Seq<u8>)>::empty());
            lemma_parts_bytes_append(before, seq![item]);
            lemma_parts_encodable_append(before, seq![item]);
            lemma_value_parts_append::<V>(vs.take(i + 1), vs.skip(i + 1));
            assert(vs.take(i + 1) + vs.skip(i + 1) =~= vs);
            lemma_parts_bytes_append(before.push(item), value_parts::<V>(vs.skip(i + 1)));
            lemma_parts_encodable_append(before.push(item), value_parts::<V>(vs.skip(i + 1)));
            assert(seq![item][0] == item);
        }
        match b.add_value::<V>(&values[i]) {
            Some(n) => {
                b = n;
            },
            None => {
                proof {
                    assert(parts_bytes(seq![item]) =~= item.1);
                    assert(parts_bytes(before.push(item)) == parts_bytes(before) + item.1);
                    if item.0 {
                        assert(parts_encodable(seq![item]));
                    }
                }
                return None;
            },
        }
        i = i + 1;
    }
    proof {
        assert(vs.take(i as int) =~= vs);
    }
    Some(b)
}

/// Reading the values of a packed field from all of `b` after `acc` have been read from its
/// front: `acc` followed by what reading the rest gives.
pub open spec fn values_read_after<T>(acc: Seq<T>, rest: read::Result<Seq<T>>) -> read::Result<Seq<T>> {
    match rest {
        Ok(vs) => Ok(acc + vs),
        Err(e) => Err(e),
    }
}

impl<V: Value + Packable> RepeatedValue<Packed<V>> for Vec<V::Inner> {
    type Entry = <V::Inner as View>::V;

    open spec fn spec_wire_type() -> WireType {
        WireType::LengthDelimited
    }

    open spec fn entries(&self) -> Seq<<V::Inner as View>::V> {
        views(self@)
    }

    open spec fn parts(&self, num: u32) -> Seq<(bool, Seq<u8>)> {
        packed_parts::<V>(num, views(self@))
    }

    open spec fn countable(&self) -> bool {
        packed_fits::<V>(views(self@))
    }

    open spec fn entries_read(s: Seq<u8>) -> read::Result<(int, Seq<<V::Inner as View>::V>)> {
        packed_read::<V>(s)
    }

    proof fn lemma_countable(&self, num: u32) {
        let vs = views(self@);
        if vs.len() > 0 {
            let head = seq![
                (packed_fits::<V>(vs), tag_bytes(num, WireType::LengthDelimited)),
                (true, varint_bytes(parts_bytes(value_parts::<V>(vs)).len() as u64)),
            ];
            lemma_parts_encodable_append(head, value_parts::<V>(vs));
            if packed_fits::<V>(vs) {
                assert forall|i: int| 0 <= i < head.len() implies #[trigger] head[i].0 by {}
            } else {
                assert(!head[0].0);
            }
        }
    }

    fn wire_type() -> (r: WireType) {
        WireType::LengthDelimited
    }

    #[verifier::spinoff_prover]
    fn add_entries_from(&mut self, input: &mut CodedReader) -> (r: read::Result<()>) {
        let ghost s = input.available();
        let ghost start = *input;
        let ghost old_views = views(self@);
        let rem0 = input.remaining();
        let length = match input.read_length() {
            Ok(l) => l,
            Err(e) => return Err(e),
        };
        let ghost n0 = input.position() - start.position();
        let rem = input.remaining();
        proof {
            lemma_varint_read_len(s);
            assert(input.available() =~= s.skip(n0));
        }
        let previous = match input.push_length(length) {
            Ok(p) => p,
            Err(e) => return Err(e),
        };
        let ghost b = s.subrange(n0, n0 + length@);
        let ghost pushed = *input;
        let ghost mut acc: Seq<<V::Inner as View>::V> = Seq::empty();
        let rem2 = input.remaining();
        proof {
            assert(length_delimited_read(s) == Ok::<(int, Seq<u8>), ReadError>((n0 + length@, b)));
            assert(input.available() =~= b);
            assert(values_read::<V>(b) == values_read_after(acc, values_read::<V>(input.available())));
        }
        while !input.reached_limit()
            invariant
                start == *old(input),
                s == start.available(),
                length_delimited_read(s) == Ok::<(int, Seq<u8>), ReadError>((n0 + length@, b)),
                input.input() == start.input(),
                input.limit_end() == pushed.limit_end(),
                input.has_limit(),
                pushed.position() <= input.position() <= input.limit_end(),
                input.last_tag_view() == start.last_tag_view(),
                input.end_group_view() == start.end_group_view(),
                input.depth() == start.depth(),
                input.recursion_limit() == start.recursion_limit(),
                input.unknown_field_handling_view() == start.unknown_field_handling_view(),
                input.limit_end() <= input.input().len(),
                views(self@) == old_views + acc,
                old_views == views(old(self)@),
                values_read::<V>(b) == values_read_after(acc, values_read::<V>(input.available())),
            decreases input.available().len(),
        {
            let ghost cur = input.available();
            proof {
                V::lemma_decoding_len(cur);
            }
            match V::read_new(input) {
                Ok(v) => {
                    let rem3 = input.remaining();
                    let ghost prev_acc = acc;
                    let ghost prev_self = self@;
                    proof {
                        let n = V::decoding(cur)->Ok_0.0;
                        assert(input.available() =~= cur.skip(n));
                        acc = acc.push(v@);
                        let rest = values_read::<V>(cur.skip(n));
                        assert(values_read::<V>(cur) == values_read_after(seq![v@], rest));
                        if rest is Ok {
                            assert(prev_acc + (seq![v@] + rest->Ok_0) =~= acc + rest->Ok_0);
                        }
                    }
                    self.push(v);
                    proof {
                        assert(self@ == prev_self.push(v));
                        assert(views(self@) =~= views(prev_self).push(v@));
                        assert(views(self@) =~= old_views + acc);
                    }
                },
                Err(e) => {
                    input.pop_length(previous);
                    proof {
                        assert((old_views + acc).subrange(0, old_views.len() as int) =~= old_views);
                    }
                    return Err(e);
                },
            }
        }
        input.pop_length(previous);
        proof {
            assert(acc + Seq::<<V::Inner as View>::V>::empty() =~= acc);
        }
        Ok(())
    }

    #[verifier::spinoff_prover]
    fn calculate_size(&self, builder: LengthBuilder, num: FieldNumber) -> (r: Option<LengthBuilder>) {
        if self.len() == 0 {
            return Some(builder);
        }
        let len = match values_size::<V>(self) {
            Some(b) => b.build(),
            None => return None,
        };
        let ghost total = parts_bytes(value_parts::<V>(views(self@))).len();
        proof {
            lemma_varint_roundtrip(total as u64);
            lemma_varint_roundtrip(tag_value(num@, WireType::LengthDelimited) as u64);
            reveal_with_fuel(parts_bytes, 3);
            let head = seq![
                (true, tag_bytes(num@, WireType::LengthDelimited)),
                (true, varint_bytes(total as u64)),
            ];
            lemma_parts_bytes_append(head, value_parts::<V>(views(self@)));
            assert(head.drop_first().drop_first() =~= Seq::<(bool, Seq<u8>)>::empty());
        }
        let b = match builder.add_tag(Tag::new(num, WireType::LengthDelimited)) {
            Some(b) => b,
            None => return None,
        };
        let b = match b.add_bytes(raw_varint32_size(len.get() as u32)) {
            Some(b) => b,
            None => return None,
        };
        b.add_bytes(len)
    }

    #[verifier::spinoff_prover]
    fn write_to(&self, output: &mut CodedWriter, num: FieldNumber) -> (r: WriteResult) {
        if self.len() == 0 {
            return Ok(());
        }
        let ghost vs = views(self@);
        let ghost start = output.written();
        let ghost cap = output.capacity();
        let len = match values_size::<V>(self) {
            Some(b) => b.build(),
            None => {
                return Err(WriteError::ValueTooLarge);
            },
        };
        let ghost head = seq![
            (true, tag_bytes(num@, WireType::LengthDelimited)),
            (true, varint_bytes(len@ as u64)),
        ];
        proof {
            reveal_with_fuel(parts_written, 3);
            assert(packed_parts::<V>(num@, vs) == head + value_parts::<V>(vs));
            assert(head.drop_first().drop_first() =~= Seq::<(bool, Seq<u8>)>::empty());
            lemma_parts_written_append(start, cap, head, value_parts::<V>(vs));
        }
        match output.write_tag(Tag::new(num, WireType::LengthDelimited)) {
            Ok(()) => {},
            Err(e) => return Err(e),
        }
        match output.write_length(len) {
            Ok(()) => {},
            Err(e) => return Err(e),
        }
        let ghost mid = output.written();
        proof {
            assert(parts_written(start, cap, head).0 == mid);
        }
        let mut i: usize = 0;
        while i < self.len()
            invariant
                vs == views(self@),
                i <= self@.len(),
                cap == old(output).capacity(),
                start == old(output).written(),
                output.capacity() == cap,
                (*final(output.target()))@ == (*final(old(output).target()))@,
                parts_encodable(value_parts::<V>(vs)),
                parts_written(start, cap, packed_parts::<V>(num@, vs)) == parts_written(
                    mid,
                    cap,
                    value_parts::<V>(vs),
                ),
                parts_written(mid, cap, value_parts::<V>(vs.take(i as int))).0 == output.written(),
                parts_written(mid, cap, value_parts::<V>(vs.take(i as int))).1 is Ok,
            decreases self@.len() - i,
        {
            let ghost before = value_parts::<V>(vs.take(i as int));
            let ghost item = (V::encodable(self@[i as int]@), V::encoding(self@[i as int]@));
            proof {
                reveal_with_fuel(parts_written, 2);
                assert(vs.take(i + 1).drop_last() =~= vs.take(i as int));
                assert(value_parts::<V>(vs.take(i + 1)) == before.push(item));
                assert(before.push(item) =~= before + seq![item]);
                lemma_parts_written_append(mid, cap, before, seq![item]);
                lemma_value_parts_append::<V>(vs.take(i + 1), vs.skip(i + 1));
                assert(vs.take(i + 1) + vs.skip(i + 1) =~= vs);
                lemma_parts_encodable_append(before.push(item), value_parts::<V>(vs.skip(i + 1)));
                lemma_parts_encodable_append(before, seq![item]);
                assert(seq![item].drop_first() =~= Seq::<(bool, Seq<u8>)>::empty());
                assert(seq![item][0] == item);
            }
            match output.write_value::<V>(&self[i]) {
                Ok(()) => {},
                Err(e) => {
                    proof {
                        lemma_parts_written_prefix_err(mid, cap, before.push(item), value_parts::<V>(vs.skip(i + 1)));
                    }
                    return Err(e);
                },
            }
            i = i + 1;
        }
        proof {
            assert(vs.take(i as int) =~= vs);
            lemma_ok_unit(parts_written(start, cap, packed_parts::<V>(num@, vs)).1);
        }
        Ok(())
    }

    fn is_initialized(&self) -> (r: bool) {
        true
    }
}

} // verus!
