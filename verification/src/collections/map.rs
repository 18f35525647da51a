//! Defines the map field type used by generated code for map fields.
//!
//! A map field is written as a run of entries, each a length delimited message holding the
//! key as field 1 and the value as field 2. Reading an entry whose key is already in the map
//! replaces that key's value.

use vstd::prelude::*;
use crate::io::{
    FieldNumber, Length, LengthBuilder, Tag, WireType, tag_value, tag_wire_number, tag_field, varint_bytes,
    lemma_varint_roundtrip,
};
use crate::io::read::{
    self, CodedReader, Error as ReadError, varint_read, length_delimited_read, skip_read, eof,
    same_state, same_config, lemma_varint_read_len, lemma_push_pop_restores,
};
use crate::io::write::{
    CodedWriter, parts_written, parts_bytes, parts_encodable, lemma_parts_written_append,
    lemma_parts_bytes_append, lemma_ok_unit, Error as WriteError, Result as WriteResult,
};
use crate::raw::{
    self, Value, tag_bytes, size_added, parts_size, lemma_size_chain, lemma_size_prefix, opt_length,
    entry_head, entry_parts, add_entry_size,
};
use crate::Mergable;

verus! {

/// A type whose values can be map keys: values compared by their views.
pub trait MapKey: View + Sized {
    /// Whether two keys are the same key.
    fn key_eq(&self, other: &Self) -> (r: bool)
        ensures
            r == (self@ == other@),
    ;

    /// Copies the key.
    fn key_clone(&self) -> (r: Self)
        ensures
            r@ == self@,
    ;
}

impl MapKey for i32 {
    fn key_eq(&self, other: &i32) -> (r: bool) {
        *self == *other
    }

    fn key_clone(&self) -> (r: i32) {
        *self
    }
}

impl MapKey for u32 {
    fn key_eq(&self, other: &u32) -> (r: bool) {
        *self == *other
    }

    fn key_clone(&self) -> (r: u32) {
        *self
    }
}

impl MapKey for i64 {
    fn key_eq(&self, other: &i64) -> (r: bool) {
        *self == *other
    }

    fn key_clone(&self) -> (r: i64) {
        *self
    }
}

impl MapKey for u64 {
    fn key_eq(&self, other: &u64) -> (r: bool) {
        *self == *other
    }

    fn key_clone(&self) -> (r: u64) {
        *self
    }
}

impl MapKey for bool {
    fn key_eq(&self, other: &bool) -> (r: bool) {
        *self == *other
    }

    fn key_clone(&self) -> (r: bool) {
        *self
    }
}

impl MapKey for std::string::String {
    fn key_eq(&self, other: &std::string::String) -> (r: bool) {
        *self == *other
    }

    fn key_clone(&self) -> (r: std::string::String) {
        self.clone()
    }
}

/// A value type whose values can be read into a map entry: an entry without its key or its
/// value gets the type's default value for it.
pub trait MapValue: Value {
    /// The default value of the type.
    spec fn spec_default() -> <Self::Inner as View>::V;

    /// Makes the default value of the type.
    fn default_value() -> (r: Self::Inner)
        ensures
            r@ == Self::spec_default(),
    ;
}

impl MapValue for raw::Int32 {
    open spec fn spec_default() -> i32 {
        0
    }

    fn default_value() -> (r: i32) {
        0
    }
}

impl MapValue for raw::Uint32 {
    open spec fn spec_default() -> u32 {
        0
    }

    fn default_value() -> (r: u32) {
        0
    }
}

impl MapValue for raw::Int64 {
    open spec fn spec_default() -> i64 {
        0
    }

    fn default_value() -> (r: i64) {
        0
    }
}

impl MapValue for raw::Uint64 {
    open spec fn spec_default() -> u64 {
        0
    }

    fn default_value() -> (r: u64) {
        0
    }
}

impl MapValue for raw::Sint32 {
    open spec fn spec_default() -> i32 {
        0
    }

    fn default_value() -> (r: i32) {
        0
    }
}

impl MapValue for raw::Sint64 {
    open spec fn spec_default() -> i64 {
        0
    }

    fn default_value() -> (r: i64) {
        0
    }
}

impl MapValue for raw::Fixed32 {
    open spec fn spec_default() -> u32 {
        0
    }

    fn default_value() -> (r: u32) {
        0
    }
}

impl MapValue for raw::Fixed64 {
    open spec fn spec_default() -> u64 {
        0
    }

    fn default_value() -> (r: u64) {
        0
    }
}

impl MapValue for raw::Sfixed32 {
    open spec fn spec_default() -> i32 {
        0
    }

    fn default_value() -> (r: i32) {
        0
    }
}

impl MapValue for raw::Sfixed64 {
    open spec fn spec_default() -> i64 {
        0
    }

    fn default_value() -> (r: i64) {
        0
    }
}

impl MapValue for raw::Bool {
    open spec fn spec_default() -> bool {
        false
    }

    fn default_value() -> (r: bool) {
        false
    }
}

impl MapValue for raw::String {
    open spec fn spec_default() -> Seq<char> {
        Seq::empty()
    }

    fn default_value() -> (r: std::string::String) {
        let r = std::string::String::new();
        proof {
            assert(r@ =~= Seq::<char>::empty());
        }
        r
    }
}

impl MapValue for raw::Bytes<Vec<u8>> {
    open spec fn spec_default() -> Seq<u8> {
        Seq::empty()
    }

    fn default_value() -> (r: Vec<u8>) {
        Vec::new()
    }
}

impl<T: crate::Enum> MapValue for raw::Enum<T> {
    open spec fn spec_default() -> i32 {
        0
    }

    fn default_value() -> (r: T) {
        T::from_i32(0)
    }
}

/// The views of a run of key and value pairs.
pub open spec fn pairs_view<K: View, V: View>(s: Seq<(K, V)>) -> Seq<(K::V, V::V)> {
    s.map_values(|p: (K, V)| (p.0@, p.1@))
}

/// Whether no key occurs twice among the entries.
pub open spec fn keys_distinct<K, V>(s: Seq<(K, V)>) -> bool {
    forall|i: int, j: int| 0 <= i < j < s.len() ==> #[trigger] s[i].0 != #[trigger] s[j].0
}

/// Whether the entries hold the key.
pub open spec fn has_key<K, V>(s: Seq<(K, V)>, k: K) -> bool {
    exists|i: int| 0 <= i < s.len() && #[trigger] s[i].0 == k
}

/// The position of the key among the entries, where they hold it.
pub open spec fn key_position<K, V>(s: Seq<(K, V)>, k: K) -> int {
    choose|i: int| 0 <= i < s.len() && #[trigger] s[i].0 == k
}

/// The value of the key among the entries, where they hold it.
pub open spec fn map_get<K, V>(s: Seq<(K, V)>, k: K) -> Option<V> {
    if has_key(s, k) {
        Some(s[key_position(s, k)].1)
    } else {
        None
    }
}

/// The entries with `k` mapped to `v`: the value of a key they hold is replaced where it is,
/// and a new key comes last.
pub open spec fn map_insert<K, V>(s: Seq<(K, V)>, k: K, v: V) -> Seq<(K, V)> {
    if has_key(s, k) {
        s.update(key_position(s, k), (k, v))
    } else {
        s.push((k, v))
    }
}

/// The type used by generated code to represent a map field: its entries, each key once, in
/// the order their keys were first added.
pub struct MapField<K: View, V: View> {
    entries: Vec<(K, V)>,
}

impl<K: View, V: View> View for MapField<K, V> {
    type V = Seq<(K::V, V::V)>;

    closed spec fn view(&self) -> Seq<(K::V, V::V)> {
        pairs_view(self.entries@)
    }
}

impl<K: View, V: View> MapField<K, V> {
    #[verifier::type_invariant]
    closed spec fn inv(self) -> bool {
        keys_distinct(self@)
    }

    /// Creates an empty map.
    pub fn new() -> (r: MapField<K, V>)
        ensures
            r@ == Seq::<(K::V, V::V)>::empty(),
    {
        let r = MapField { entries: Vec::new() };
        proof {
            assert(r@ =~= Seq::<(K::V, V::V)>::empty());
        }
        r
    }

    /// Gets the number of entries in the map.
    pub fn len(&self) -> (r: usize)
        ensures
            r == self@.len(),
    {
        self.entries.len()
    }

    /// Returns whether the map has no entries.
    pub fn is_empty(&self) -> (r: bool)
        ensures
            r == (self@.len() == 0),
    {
        self.entries.len() == 0
    }
}

/// The position of the entry with the key among the entries, if any.
fn find_key<K: MapKey, V: View>(entries: &Vec<(K, V)>, key: &K) -> (r: Option<usize>)
    ensures
        r matches Some(i) ==> i < entries@.len() && pairs_view(entries@)[i as int].0 == key@,
        r is None ==> !has_key(pairs_view(entries@), key@),
{
    let ghost s = pairs_view(entries@);
    let mut i: usize = 0;
    while i < entries.len()
        invariant
            i <= entries@.len(),
            s == pairs_view(entries@),
            s.len() == entries@.len(),
            forall|j: int| 0 <= j < i ==> #[trigger] s[j].0 != key@,
        decreases entries@.len() - i,
    {
        if entries[i].0.key_eq(key) {
            return Some(i);
        }
        i = i + 1;
    }
    None
}

impl<K: MapKey, V: View> MapField<K, V> {
    /// Gets the value of the key, if the map holds it.
    pub fn get(&self, key: &K) -> (r: Option<&V>)
        ensures
            match map_get(self@, key@) {
                Some(v) => r matches Some(x) && x@ == v,
                None => r is None,
            },
    {
        proof {
            use_type_invariant(self);
        }
        match find_key(&self.entries, key) {
            Some(i) => {
                proof {
                    assert(has_key(self@, key@));
                    assert(key_position(self@, key@) == i as int);
                }
                Some(&self.entries[i].1)
            },
            None => None,
        }
    }

    /// Maps the key to the value, giving back the value it replaced, if any.
    pub fn insert(&mut self, key: K, value: V) -> (r: Option<V>)
        ensures
            final(self)@ == map_insert(old(self)@, key@, value@),
            match map_get(old(self)@, key@) {
                Some(v) => r matches Some(x) && x@ == v,
                None => r is None,
            },
    {
        proof {
            use_type_invariant(&*self);
        }
        let ghost s = self@;
        let mut this = MapField::new();
        core::mem::swap(self, &mut this);
        let MapField { entries: mut entries } = this;
        let ghost ks = key@;
        let ghost vs = value@;
        match find_key(&entries, &key) {
            Some(i) => {
                proof {
                    assert(has_key(s, ks));
                    assert(key_position(s, ks) == i as int);
                }
                let old_entry = entries.remove(i);
                entries.insert(i, (key, value));
                proof {
                    assert(pairs_view(entries@) =~= s.update(i as int, (ks, vs)));
                }
                *self = MapField { entries };
                Some(old_entry.1)
            },
            None => {
                entries.push((key, value));
                proof {
                    assert(pairs_view(entries@) =~= s.push((ks, vs)));
                    assert forall|a: int, b: int| 0 <= a < b < s.len() + 1 implies
                        #[trigger] s.push((ks, vs))[a].0 != #[trigger] s.push((ks, vs))[b].0 by {
                        if b == s.len() {
                            assert(s[a].0 != ks);
                        }
                    }
                }
                *self = MapField { entries };
                None
            },
        }
    }
}

/// The parts the fields of a map entry are written as: the key as field 1, then the value as
/// field 2.
pub open spec fn entry_fields<KT: Value, VT: Value>(
    k: <KT::Inner as View>::V,
    v: <VT::Inner as View>::V,
) -> Seq<(bool, Seq<u8>)> {
    seq![
        (true, tag_bytes(1, KT::spec_wire_type())),
        (KT::encodable(k), KT::encoding(k)),
        (true, tag_bytes(2, VT::spec_wire_type())),
        (VT::encodable(v), VT::encoding(v)),
    ]
}

/// The parts the entries `es` of a map field with field number `num` are written as: for
/// each, one after the other, its tag, its length and its fields.
pub open spec fn map_parts<KT: Value, VT: Value>(
    num: u32,
    es: Seq<(<KT::Inner as View>::V, <VT::Inner as View>::V)>,
) -> Seq<(bool, Seq<u8>)>
    decreases es.len(),
{
    if es.len() == 0 {
        Seq::empty()
    } else {
        map_parts::<KT, VT>(num, es.drop_last()) + entry_parts(
            num,
            entry_fields::<KT, VT>(es.last().0, es.last().1),
        )
    }
}

/// The parts of two runs of entries are those of the first, then those of the second.
pub proof fn lemma_map_parts_append<KT: Value, VT: Value>(
    num: u32,
    a: Seq<(<KT::Inner as View>::V, <VT::Inner as View>::V)>,
    b: Seq<(<KT::Inner as View>::V, <VT::Inner as View>::V)>,
)
    ensures
        map_parts::<KT, VT>(num, a + b) == map_parts::<KT, VT>(num, a) + map_parts::<KT, VT>(num, b),
    decreases b.len(),
{
    if b.len() == 0 {
        assert(a + b =~= a);
        assert(map_parts::<KT, VT>(num, a) + map_parts::<KT, VT>(num, b) =~= map_parts::<KT, VT>(num, a));
    } else {
        let ab = a + b;
        assert(ab.drop_last() =~= a + b.drop_last());
        assert(ab.last() == b.last());
        lemma_map_parts_append::<KT, VT>(num, a, b.drop_last());
        assert(map_parts::<KT, VT>(num, a + b) =~= map_parts::<KT, VT>(num, a) + map_parts::<KT, VT>(num, b));
    }
}

/// A single part can be written exactly when its flag says so, and its bytes are its own.
proof fn lemma_one_part(e: bool, b: Seq<u8>)
    ensures
        parts_encodable(seq![(e, b)]) == e,
        parts_bytes(seq![(e, b)]) == b,
{
    reveal_with_fuel(parts_bytes, 2);
    assert(seq![(e, b)].drop_first() =~= Seq::<(bool, Seq<u8>)>::empty());
    assert(parts_bytes(seq![(e, b)]) =~= b);
    if e {
        assert forall|i: int| 0 <= i < 1 implies #[trigger] seq![(e, b)][i].0 by {}
    } else {
        assert(!seq![(e, b)][0].0);
    }
}

/// Adds the size of a tag to the builder, as that of its part.
fn add_tag_part(b: LengthBuilder, num: FieldNumber, wt: WireType) -> (r: Option<LengthBuilder>)
    ensures
        size_added(
            b@ as int,
            parts_encodable(seq![(true, tag_bytes(num@, wt))]),
            parts_bytes(seq![(true, tag_bytes(num@, wt))]).len() as int,
            r,
        ),
{
    proof {
        lemma_one_part(true, tag_bytes(num@, wt));
        lemma_varint_roundtrip(tag_value(num@, wt) as u64);
    }
    b.add_tag(Tag::new(num, wt))
}

/// Adds the size of a value to the builder, as that of its part.
fn add_value_part<V: Value>(b: LengthBuilder, value: &V::Inner) -> (r: Option<LengthBuilder>)
    ensures
        size_added(
            b@ as int,
            parts_encodable(seq![(V::encodable(value@), V::encoding(value@))]),
            parts_bytes(seq![(V::encodable(value@), V::encoding(value@))]).len() as int,
            r,
        ),
{
    proof {
        lemma_one_part(V::encodable(value@), V::encoding(value@));
    }
    b.add_value::<V>(value)
}

/// The size of the fields of a map entry: `None` where they cannot all be written or their
/// size does not fit in a length.
fn entry_size<KT: Value, VT: Value>(key: &KT::Inner, value: &VT::Inner) -> (r: Option<Length>)
    ensures
        opt_length(r) == parts_size(entry_fields::<KT, VT>(key@, value@)),
{
    let ghost k = key@;
    let ghost v = value@;
    let ghost p0 = seq![(true, tag_bytes(1, KT::spec_wire_type()))];
    let ghost p1 = seq![(KT::encodable(k), KT::encoding(k))];
    let ghost p2 = seq![(true, tag_bytes(2, VT::spec_wire_type()))];
    let ghost p3 = seq![(VT::encodable(v), VT::encoding(v))];
    proof {
        assert(entry_fields::<KT, VT>(k, v) =~= p0 + p1 + p2 + p3);
    }
    let b0 = LengthBuilder::new();
    let r0 = add_tag_part(b0, FieldNumber::new_unchecked(1), KT::wire_type());
    let b1 = match r0 {
        Some(b) => b,
        None => {
            proof {
                lemma_size_prefix(0, p0, p1 + p2 + p3);
                assert(p0 + (p1 + p2 + p3) =~= p0 + p1 + p2 + p3);
            }
            return None;
        },
    };
    let r1 = add_value_part::<KT>(b1, key);
    proof {
        lemma_size_chain(0, p0, p1, r0, r1);
    }
    let b2 = match r1 {
        Some(b) => b,
        None => {
            proof {
                lemma_size_prefix(0, p0 + p1, p2 + p3);
                assert(p0 + p1 + (p2 + p3) =~= p0 + p1 + p2 + p3);
            }
            return None;
        },
    };
    let r2 = add_tag_part(b2, FieldNumber::new_unchecked(2), VT::wire_type());
    proof {
        lemma_size_chain(0, p0 + p1, p2, r1, r2);
    }
    let b3 = match r2 {
        Some(b) => b,
        None => {
            proof {
                lemma_size_prefix(0, p0 + p1 + p2, p3);
            }
            return None;
        },
    };
    let r3 = add_value_part::<VT>(b3, value);
    proof {
        lemma_size_chain(0, p0 + p1 + p2, p3, r2, r3);
    }
    match r3 {
        Some(b) => Some(b.build()),
        None => None,
    }
}

/// Writes the fields of a map entry: the key's tag and the key, then the value's tag and the
/// value.
fn write_entry_fields<KT: Value, VT: Value>(
    output: &mut CodedWriter,
    key: &KT::Inner,
    value: &VT::Inner,
) -> (r: WriteResult)
    ensures
        (final(output).written(), r) == parts_written(
            old(output).written(),
            old(output).capacity(),
            entry_fields::<KT, VT>(key@, value@),
        ),
        final(output).capacity() == old(output).capacity(),
        (*final(final(output).target()))@ == (*final(old(output).target()))@,
{
    let ghost p = entry_fields::<KT, VT>(key@, value@);
    proof {
        reveal_with_fuel(parts_written, 5);
        lemma_varint_roundtrip(tag_value(1, KT::spec_wire_type()) as u64);
        lemma_varint_roundtrip(tag_value(2, VT::spec_wire_type()) as u64);
        assert(p.drop_first().drop_first().drop_first().drop_first() =~= Seq::<(bool, Seq<u8>)>::empty());
    }
    match output.write_tag(Tag::new(FieldNumber::new_unchecked(1), KT::wire_type())) {
        Ok(()) => {},
        Err(e) => return Err(e),
    }
    match KT::write_to(key, output) {
        Ok(()) => {},
        Err(e) => return Err(e),
    }
    match output.write_tag(Tag::new(FieldNumber::new_unchecked(2), VT::wire_type())) {
        Ok(()) => {},
        Err(e) => return Err(e),
    }
    VT::write_to(value, output)
}

impl<K: View, V: View> MapField<K, V> {
    /// Adds the size of the map field with field number `num` to the builder: for each entry,
    /// its tag, its length and its fields.
    pub fn calculate_size<KT: Value<Inner = K>, VT: Value<Inner = V>>(
        &self,
        builder: LengthBuilder,
        num: FieldNumber,
    ) -> (r: Option<LengthBuilder>)
        ensures
            size_added(
                builder@ as int,
                parts_encodable(map_parts::<KT, VT>(num@, self@)),
                parts_bytes(map_parts::<KT, VT>(num@, self@)).len() as int,
                r,
            ),
    {
        let ghost es = self@;
        proof {
            assert(es.take(0) =~= Seq::<(K::V, V::V)>::empty());
        }
        let mut b = builder;
        let mut i: usize = 0;
        while i < self.entries.len()
            invariant
                es == self@,
                es == pairs_view(self.entries@),
                es.len() == self.entries@.len(),
                i <= es.len(),
                size_added(
                    builder@ as int,
                    parts_encodable(map_parts::<KT, VT>(num@, es.take(i as int))),
                    parts_bytes(map_parts::<KT, VT>(num@, es.take(i as int))).len() as int,
                    Some(b),
                ),
            decreases es.len() - i,
        {
            let ghost e = es[i as int];
            let ghost done = map_parts::<KT, VT>(num@, es.take(i as int));
            let ghost fields = entry_fields::<KT, VT>(e.0, e.1);
            let ghost cur = entry_parts(num@, fields);
            let ghost rest = map_parts::<KT, VT>(num@, es.skip(i + 1));
            proof {
                assert(es.take(i + 1).drop_last() =~= es.take(i as int));
                assert(map_parts::<KT, VT>(num@, es.take(i + 1)) == done + cur);
                lemma_map_parts_append::<KT, VT>(num@, es.take(i + 1), es.skip(i + 1));
                assert(es.take(i + 1) + es.skip(i + 1) =~= es);
            }
            let len = entry_size::<KT, VT>(&self.entries[i].0, &self.entries[i].1);
            let r = add_entry_size(b, num, len, Ghost(fields));
            proof {
                lemma_size_chain(builder@ as int, done, cur, Some(b), r);
            }
            b = match r {
                Some(b1) => b1,
                None => {
                    proof {
                        lemma_size_prefix(builder@ as int, done + cur, rest);
                    }
                    return None;
                },
            };
            i = i + 1;
        }
        proof {
            assert(es.take(i as int) =~= es);
        }
        Some(b)
    }

    /// Writes the map field with field number `num`: for each entry, its tag, its length, and
    /// its fields.
    pub fn write_to<KT: Value<Inner = K>, VT: Value<Inner = V>>(
        &self,
        output: &mut CodedWriter,
        num: FieldNumber,
    ) -> (r: WriteResult)
        ensures
            (final(output).written(), r) == parts_written(
                old(output).written(),
                old(output).capacity(),
                map_parts::<KT, VT>(num@, self@),
            ),
            final(output).capacity() == old(output).capacity(),
            (*final(final(output).target()))@ == (*final(old(output).target()))@,
    {
        let ghost es = self@;
        let ghost start = output.written();
        let ghost cap = output.capacity();
        proof {
            assert(es.take(0) =~= Seq::<(K::V, V::V)>::empty());
        }
        let mut i: usize = 0;
        while i < self.entries.len()
            invariant
                es == self@,
                es == pairs_view(self.entries@),
                es.len() == self.entries@.len(),
                i <= es.len(),
                start == old(output).written(),
                cap == old(output).capacity(),
                output.capacity() == cap,
                (*final(output.target()))@ == (*final(old(output).target()))@,
                parts_written(start, cap, map_parts::<KT, VT>(num@, es.take(i as int))).0 == output.written(),
                parts_written(start, cap, map_parts::<KT, VT>(num@, es.take(i as int))).1 is Ok,
            decreases es.len() - i,
        {
            let ghost e = es[i as int];
            let ghost done = map_parts::<KT, VT>(num@, es.take(i as int));
            let ghost fields = entry_fields::<KT, VT>(e.0, e.1);
            let ghost head = entry_head(num@, fields);
            let ghost cur = head + fields;
            let ghost rest = map_parts::<KT, VT>(num@, es.skip(i + 1));
            let ghost w0 = output.written();
            proof {
                assert(es.take(i + 1).drop_last() =~= es.take(i as int));
                assert(map_parts::<KT, VT>(num@, es.take(i + 1)) == done + cur);
                lemma_map_parts_append::<KT, VT>(num@, es.take(i + 1), es.skip(i + 1));
                assert(es.take(i + 1) + es.skip(i + 1) =~= es);
                lemma_parts_written_append(start, cap, done, cur);
                lemma_parts_written_append(start, cap, done + cur, rest);
                lemma_parts_written_append(w0, cap, head, fields);
                reveal_with_fuel(parts_written, 3);
                assert(head.drop_first().drop_first() =~= Seq::<(bool, Seq<u8>)>::empty());
                lemma_varint_roundtrip(tag_value(num@, WireType::LengthDelimited) as u64);
            }
            match output.write_tag(Tag::new(num, WireType::LengthDelimited)) {
                Ok(()) => {},
                Err(e) => return Err(e),
            }
            let len = match entry_size::<KT, VT>(&self.entries[i].0, &self.entries[i].1) {
                Some(len) => len,
                None => return Err(WriteError::ValueTooLarge),
            };
            match output.write_length(len) {
                Ok(()) => {},
                Err(e) => return Err(e),
            }
            match write_entry_fields::<KT, VT>(output, &self.entries[i].0, &self.entries[i].1) {
                Ok(()) => {},
                Err(e) => return Err(e),
            }
            i = i + 1;
        }
        proof {
            assert(es.take(i as int) =~= es);
            lemma_ok_unit(parts_written(start, cap, map_parts::<KT, VT>(num@, es)).1);
        }
        Ok(())
    }

    /// Returns whether all the values in the map are initialized; values of the map's value
    /// types always are.
    pub fn is_initialized(&self) -> (r: bool)
        ensures
            r,
    {
        true
    }
}

/// The value of an optional tag.
pub open spec fn tag_opt_value(t: Option<Tag>) -> Option<u32> {
    match t {
        Some(t) => Some(t@),
        None => None,
    }
}

/// The view of an optional value.
pub open spec fn opt_view<T: View>(o: Option<T>) -> Option<T::V> {
    match o {
        Some(v) => Some(v@),
        None => None,
    }
}

/// The value held, or the default where none is.
pub open spec fn or_default<T>(o: Option<T>, d: T) -> T {
    match o {
        Some(v) => v,
        None => d,
    }
}

/// The last tag after skipping the value of a field with tag `t`: the end tag of a skipped
/// group, else `t` itself.
pub open spec fn last_after_skip(t: u32) -> u32 {
    if tag_wire_number(t) == 3 {
        tag_value(tag_field(t), WireType::EndGroup)
    } else {
        t
    }
}

/// What reading the fields of a map entry from all of `b` gives: the key and the value read
/// last, where any was read. A field holding neither is skipped as the value of the last tag
/// read, `last`, which the key and the value fields set. `eg`, `depth` and `limit` are the
/// reader's end group tag, depth and recursion limit.
pub open spec fn entry_read<KT: Value, VT: Value>(
    b: Seq<u8>,
    key: Option<<KT::Inner as View>::V>,
    value: Option<<VT::Inner as View>::V>,
    last: Option<u32>,
    eg: Option<Tag>,
    depth: nat,
    limit: nat,
) -> read::Result<(Option<<KT::Inner as View>::V>, Option<<VT::Inner as View>::V>)>
    decreases b.len(),
{
    if b.len() == 0 {
        Ok((key, value))
    } else {
        match varint_read(b) {
            Err(e) => Err(e),
            Ok((n, w)) => if n < 1 || n > b.len() {
                Err(eof())
            } else {
                let t = w as u32;
                let key_tag = tag_value(1, KT::spec_wire_type());
                let value_tag = tag_value(2, VT::spec_wire_type());
                if t == key_tag {
                    match KT::decoding(b.skip(n)) {
                        Err(e) => Err(e),
                        Ok((m, k)) => if m < 0 || n + m > b.len() {
                            Err(eof())
                        } else {
                            entry_read::<KT, VT>(b.skip(n + m), Some(k), value, Some(key_tag), eg, depth, limit)
                        },
                    }
                } else if t == value_tag {
                    match VT::decoding(b.skip(n)) {
                        Err(e) => Err(e),
                        Ok((m, v)) => if m < 0 || n + m > b.len() {
                            Err(eof())
                        } else {
                            entry_read::<KT, VT>(b.skip(n + m), key, Some(v), Some(value_tag), eg, depth, limit)
                        },
                    }
                } else {
                    match last {
                        None => entry_read::<KT, VT>(b.skip(n), key, value, None, eg, depth, limit),
                        Some(lt) => match skip_read(b.skip(n), lt, eg, depth, limit) {
                            Err(e) => Err(e),
                            Ok(m) => if m < 0 || n + m > b.len() {
                                Err(eof())
                            } else {
                                entry_read::<KT, VT>(
                                    b.skip(n + m),
                                    key,
                                    value,
                                    Some(last_after_skip(lt)),
                                    eg,
                                    depth,
                                    limit,
                                )
                            },
                        },
                    }
                }
            },
        }
    }
}

/// What reading a map entry from the front of `s` gives: the number of bytes read, and the key
/// and the value, each the type's default where the entry does not hold it. `last` is the
/// reader's last tag; `eg`, `depth` and `limit` its end group tag, depth and recursion limit.
pub open spec fn map_entry_read<KT: MapValue, VT: MapValue>(
    s: Seq<u8>,
    last: Option<u32>,
    eg: Option<Tag>,
    depth: nat,
    limit: nat,
) -> read::Result<(int, (<KT::Inner as View>::V, <VT::Inner as View>::V))> {
    match length_delimited_read(s) {
        Err(e) => Err(e),
        Ok((n, b)) => match entry_read::<KT, VT>(b, None, None, last, eg, depth, limit) {
            Err(e) => Err(e),
            Ok((k, v)) => Ok((n, (or_default(k, KT::spec_default()), or_default(v, VT::spec_default())))),
        },
    }
}

impl<K: MapKey, V: View> MapField<K, V> {
    /// Reads the fields of a map entry up to the reader's limit, keeping the key and the value
    /// read last.
    fn read_entry_fields<KT: Value<Inner = K>, VT: Value<Inner = V>>(
        input: &mut CodedReader,
    ) -> (r: read::Result<(Option<K>, Option<V>)>)
        ensures
            same_config(*old(input), *final(input)),
            match entry_read::<KT, VT>(
                old(input).available(),
                None,
                None,
                tag_opt_value(old(input).last_tag_view()),
                old(input).end_group_view(),
                old(input).depth(),
                old(input).recursion_limit(),
            ) {
                Ok((k, v)) => r matches Ok((k2, v2)) && opt_view(k2) == k && opt_view(v2) == v
                    && final(input).position() == old(input).limit_end() && same_state(*old(input), *final(input)),
                Err(e) => r == Err::<(Option<K>, Option<V>), ReadError>(e),
            },
    {
        let rem0 = input.remaining();
        let ghost start = *input;
        let ghost eg = input.end_group_view();
        let ghost depth = input.depth();
        let ghost limit = input.recursion_limit();
        let ghost total = entry_read::<KT, VT>(input.available(), None, None, tag_opt_value(input.last_tag_view()), eg, depth, limit);
        let key_tag = Tag::new(FieldNumber::new_unchecked(1), KT::wire_type());
        let value_tag = Tag::new(FieldNumber::new_unchecked(2), VT::wire_type());
        let mut key: Option<K> = None;
        let mut value: Option<V> = None;
        loop
            invariant
                start == *old(input),
                eg == start.end_group_view(),
                depth == start.depth(),
                limit == start.recursion_limit(),
                key_tag@ == tag_value(1, KT::spec_wire_type()),
                value_tag@ == tag_value(2, VT::spec_wire_type()),
                same_state(start, *input),
                0 <= start.position() <= input.position(),
                input.limit_end() <= input.input().len(),
                total == entry_read::<KT, VT>(start.available(), None, None, tag_opt_value(start.last_tag_view()), eg, depth, limit),
                total == entry_read::<KT, VT>(input.available(), opt_view(key), opt_view(value), tag_opt_value(input.last_tag_view()), eg, depth, limit),
            decreases input.available().len(),
        {
            let ghost s = input.available();
            let ghost before = *input;
            let t = match input.read_field() {
                Ok(Some(t)) => t,
                Ok(None) => return Ok((key, value)),
                Err(e) => return Err(e),
            };
            let rem1 = input.remaining();
            let ghost n = input.position() - before.position();
            proof {
                lemma_varint_read_len(s);
                assert(input.available() =~= s.skip(n));
            }
            let ghost mid = *input;
            if t == key_tag.get() {
                proof {
                    KT::lemma_decoding_len(s.skip(n));
                }
                input.set_last_tag(Some(key_tag));
                match input.read_value::<KT>() {
                    Ok(k) => key = Some(k),
                    Err(e) => return Err(e),
                }
            } else if t == value_tag.get() {
                proof {
                    VT::lemma_decoding_len(s.skip(n));
                }
                input.set_last_tag(Some(value_tag));
                match input.read_value::<VT>() {
                    Ok(v) => value = Some(v),
                    Err(e) => return Err(e),
                }
            } else {
                match input.skip() {
                    Ok(()) => {},
                    Err(e) => return Err(e),
                }
                proof {
                    if let Some(lt) = mid.last_tag_view() {
                        if tag_wire_number(lt@) == 3 {
                            assert(tag_opt_value(input.last_tag_view()) == Some(last_after_skip(lt@)));
                        }
                    }
                }
            }
            let rem2 = input.remaining();
            proof {
                let m = input.position() - mid.position();
                assert(input.available() =~= s.skip(n + m));
            }
        }
    }

    /// Reads a map entry from the reader, a length delimited value, and maps its key to its
    /// value in the map. An entry without a key or a value gets the default value for it. On
    /// an error the map is unchanged.
    pub fn add_entries_from<KT: MapValue<Inner = K>, VT: MapValue<Inner = V>>(
        &mut self,
        input: &mut CodedReader,
    ) -> (r: read::Result<()>)
        ensures
            same_config(*old(input), *final(input)),
            match map_entry_read::<KT, VT>(
                old(input).available(),
                tag_opt_value(old(input).last_tag_view()),
                old(input).end_group_view(),
                old(input).depth(),
                old(input).recursion_limit(),
            ) {
                Ok((n, (k, v))) => r is Ok && final(self)@ == map_insert(old(self)@, k, v)
                    && final(input).position() == old(input).position() + n
                    && same_state(*old(input), *final(input)),
                Err(e) => r == Err::<(), ReadError>(e) && final(self)@ == old(self)@,
            },
    {
        let rem0 = input.remaining();
        let ghost s = input.available();
        let ghost start = *input;
        let length = match input.read_length() {
            Ok(l) => l,
            Err(e) => return Err(e),
        };
        let rem1 = input.remaining();
        let ghost n0 = input.position() - start.position();
        let ghost before = *input;
        proof {
            lemma_varint_read_len(s);
            assert(input.available() =~= s.skip(n0));
        }
        let previous = match input.push_length(length) {
            Ok(p) => p,
            Err(e) => return Err(e),
        };
        let rem2 = input.remaining();
        let ghost b = s.subrange(n0, n0 + length@);
        proof {
            assert(input.available() =~= b);
            assert(length_delimited_read(s) == Ok::<(int, Seq<u8>), ReadError>((n0 + length@, b)));
        }
        let ghost pushed = *input;
        let fields = Self::read_entry_fields::<KT, VT>(input);
        let ghost at_limit = *input;
        let rem3 = input.remaining();
        input.pop_length(previous);
        let (key, value) = match fields {
            Ok(f) => f,
            Err(e) => return Err(e),
        };
        proof {
            lemma_push_pop_restores(before, pushed, at_limit, *input, length, previous);
        }
        let key = match key {
            Some(k) => k,
            None => KT::default_value(),
        };
        let value = match value {
            Some(v) => v,
            None => VT::default_value(),
        };
        self.insert(key, value);
        Ok(())
    }
}

/// The entries after the pairs `ps` are mapped one after the other.
pub open spec fn inserted_all<K, V>(s: Seq<(K, V)>, ps: Seq<(K, V)>) -> Seq<(K, V)>
    decreases ps.len(),
{
    if ps.len() == 0 {
        s
    } else {
        map_insert(inserted_all(s, ps.drop_last()), ps.last().0, ps.last().1)
    }
}

/// Mapping entries whose keys are distinct one after the other, starting from no entry, gives
/// back those entries in their order.
pub proof fn lemma_inserted_all_distinct<K, V>(es: Seq<(K, V)>)
    requires
        keys_distinct(es),
    ensures
        inserted_all(Seq::<(K, V)>::empty(), es) == es,
    decreases es.len(),
{
    if es.len() > 0 {
        let init = es.drop_last();
        assert(keys_distinct(init)) by {
            assert forall|i: int, j: int| 0 <= i < j < init.len() implies #[trigger] init[i].0 != #[trigger] init[j].0 by {
                assert(init[i] == es[i] && init[j] == es[j]);
            }
        }
        lemma_inserted_all_distinct(init);
        assert(!has_key(init, es.last().0)) by {
            if has_key(init, es.last().0) {
                let i = choose|i: int| 0 <= i < init.len() && #[trigger] init[i].0 == es.last().0;
                assert(es[i].0 == es[es.len() - 1].0);
            }
        }
        assert(init.push(es.last()) =~= es);
    }
}

/// The fields of a map entry, its key and its value, written and followed by anything, are
/// read back as that key and that value, taking all their bytes, whatever the last tag.
proof fn lemma_entry_fields_read<KT: Value, VT: Value>(
    k: <KT::Inner as View>::V,
    v: <VT::Inner as View>::V,
    last: Option<u32>,
    eg: Option<Tag>,
    depth: nat,
    limit: nat,
)
    requires
        parts_encodable(entry_fields::<KT, VT>(k, v)),
    ensures
        entry_read::<KT, VT>(parts_bytes(entry_fields::<KT, VT>(k, v)), None, None, last, eg, depth, limit)
            == Ok::<(Option<<KT::Inner as View>::V>, Option<<VT::Inner as View>::V>), ReadError>((Some(k), Some(v))),
{
    let p = entry_fields::<KT, VT>(k, v);
    let key_tag = tag_value(1, KT::spec_wire_type());
    let value_tag = tag_value(2, VT::spec_wire_type());
    let t1 = tag_bytes(1, KT::spec_wire_type());
    let t2 = tag_bytes(2, VT::spec_wire_type());
    let ek = KT::encoding(k);
    let ev = VT::encoding(v);
    assert(p[1].0 && p[3].0);
    reveal_with_fuel(parts_bytes, 5);
    assert(p.drop_first().drop_first().drop_first().drop_first() =~= Seq::<(bool, Seq<u8>)>::empty());
    let b = parts_bytes(p);
    assert(b =~= t1 + (ek + (t2 + ev)));
    crate::io::lemma_tag_value(1, KT::spec_wire_type());
    crate::io::lemma_tag_value(2, VT::spec_wire_type());
    assert(key_tag != value_tag);
    lemma_varint_roundtrip(key_tag as u64);
    lemma_varint_roundtrip(value_tag as u64);
    crate::io::read::lemma_varint_read_encoding(key_tag as u64, ek + (t2 + ev));
    let n1 = t1.len() as int;
    assert(b.skip(n1) =~= ek + (t2 + ev));
    KT::lemma_roundtrip(k, t2 + ev);
    let b2 = b.skip(n1 + ek.len());
    assert(b2 =~= t2 + ev);
    crate::io::read::lemma_varint_read_encoding(value_tag as u64, ev);
    let n2 = t2.len() as int;
    assert(b2.skip(n2) =~= ev + Seq::<u8>::empty());
    VT::lemma_roundtrip(v, Seq::<u8>::empty());
    let b3 = b2.skip(n2 + ev.len());
    assert(b3 =~= Seq::<u8>::empty());
    assert(entry_read::<KT, VT>(b3, Some(k), Some(v), Some(value_tag), eg, depth, limit)
        == Ok::<(Option<<KT::Inner as View>::V>, Option<<VT::Inner as View>::V>), ReadError>((Some(k), Some(v))));
    assert(entry_read::<KT, VT>(b2, Some(k), None, Some(key_tag), eg, depth, limit)
        == entry_read::<KT, VT>(b3, Some(k), Some(v), Some(value_tag), eg, depth, limit));
}

/// The bytes of a map entry's value: its length, then its fields.
pub open spec fn entry_value_bytes<KT: Value, VT: Value>(
    k: <KT::Inner as View>::V,
    v: <VT::Inner as View>::V,
) -> Seq<u8> {
    varint_bytes(parts_bytes(entry_fields::<KT, VT>(k, v)).len() as u64) + parts_bytes(
        entry_fields::<KT, VT>(k, v),
    )
}

/// A map's entries written with field number `num` read back as that map. Each entry is
/// written as its tag, then its value: after the tag, reading the entry from that value,
/// followed by anything, gives back its key and its value and takes the whole value, whatever
/// the reader's last tag; and mapping the entries read one after the other, starting from an
/// empty map, gives back the map's entries in their order.
pub proof fn lemma_map_roundtrip<K: View, V: View, KT: MapValue<Inner = K>, VT: MapValue<Inner = V>>(
    map: MapField<K, V>,
    num: u32,
    rest: Seq<u8>,
    last: Option<u32>,
    eg: Option<Tag>,
    depth: nat,
    limit: nat,
)
    requires
        keys_distinct(map@),
        forall|i: int| 0 <= i < map@.len() ==> (#[trigger] parts_size(
            entry_fields::<KT, VT>(map@[i].0, map@[i].1),
        )) is Some,
    ensures
        forall|i: int|
            #![trigger map@[i]]
            0 <= i < map@.len() ==> parts_bytes(entry_parts(num, entry_fields::<KT, VT>(map@[i].0, map@[i].1)))
                == tag_bytes(num, WireType::LengthDelimited) + entry_value_bytes::<KT, VT>(map@[i].0, map@[i].1)
                && map_entry_read::<KT, VT>(
                entry_value_bytes::<KT, VT>(map@[i].0, map@[i].1) + rest,
                last,
                eg,
                depth,
                limit,
            ) == Ok::<(int, (K::V, V::V)), ReadError>(
                (entry_value_bytes::<KT, VT>(map@[i].0, map@[i].1).len() as int, map@[i]),
            ),
        inserted_all(Seq::<(K::V, V::V)>::empty(), map@) == map@,
{
    lemma_inserted_all_distinct(map@);
    assert forall|i: int|
        #![trigger map@[i]]
        0 <= i < map@.len() implies parts_bytes(entry_parts(num, entry_fields::<KT, VT>(map@[i].0, map@[i].1)))
            == tag_bytes(num, WireType::LengthDelimited) + entry_value_bytes::<KT, VT>(map@[i].0, map@[i].1)
            && map_entry_read::<KT, VT>(
            entry_value_bytes::<KT, VT>(map@[i].0, map@[i].1) + rest,
            last,
            eg,
            depth,
            limit,
        ) == Ok::<(int, (K::V, V::V)), ReadError>(
            (entry_value_bytes::<KT, VT>(map@[i].0, map@[i].1).len() as int, map@[i]),
        ) by {
        let e = map@[i];
        let fields = entry_fields::<KT, VT>(e.0, e.1);
        let head = entry_head(num, fields);
        let body = parts_bytes(fields);
        let value_bytes = entry_value_bytes::<KT, VT>(e.0, e.1);
        assert(parts_size(fields) is Some);
        lemma_parts_bytes_append(head, fields);
        reveal_with_fuel(parts_bytes, 3);
        assert(head.drop_first().drop_first() =~= Seq::<(bool, Seq<u8>)>::empty());
        assert(parts_bytes(head) =~= head[0].1 + head[1].1);
        assert(parts_bytes(entry_parts(num, fields)) =~= tag_bytes(num, WireType::LengthDelimited) + value_bytes);
        crate::io::read::lemma_length_delimited_read_encoding(body, rest);
        assert(value_bytes + rest =~= varint_bytes(body.len() as u64) + body + rest);
        lemma_varint_roundtrip(body.len() as u64);
        lemma_entry_fields_read::<KT, VT>(e.0, e.1, last, eg, depth, limit);
    }
}

/// Whether `result` is what merging the entry `e` of another map into the entries `mid`
/// gives: where `mid` holds its key, the value there is merged with the entry's; otherwise the
/// entry comes last, with a clone of its value.
pub open spec fn merged_step<K: View, V: Mergable + Clone>(
    mid: Seq<(K::V, V::V)>,
    e: (K::V, V::V),
    result: Seq<(K::V, V::V)>,
) -> bool {
    if has_key(mid, e.0) {
        let i = key_position(mid, e.0);
        &&& result.len() == mid.len()
        &&& forall|j: int| 0 <= j < mid.len() && j != i ==> #[trigger] result[j] == mid[j]
        &&& result[i].0 == e.0
        &&& V::merge_of(mid[i].1, e.1, result[i].1)
    } else {
        &&& result.len() == mid.len() + 1
        &&& result.drop_last() == mid
        &&& result.last().0 == e.0
        &&& exists|x: V, y: V| #[trigger] cloned::<V>(x, y) && x@ == e.1 && y@ == result.last().1
    }
}

/// Whether `states` are the entries of a map as the entries `other` of another map are merged
/// into `this` one after the other: `this` first, then the entries after each merge.
pub open spec fn merge_trace<K: View, V: Mergable + Clone>(
    this: Seq<(K::V, V::V)>,
    other: Seq<(K::V, V::V)>,
    states: Seq<Seq<(K::V, V::V)>>,
) -> bool {
    &&& states.len() == other.len() + 1
    &&& states[0] == this
    &&& forall|i: int| 0 <= i < other.len() ==> merged_step::<K, V>(#[trigger] states[i], other[i], states[i + 1])
}

impl<K: MapKey, V: Mergable + Clone> Mergable for MapField<K, V> {
    /// The entries of `other` are merged into `this` one after the other: the value of a key
    /// `this` holds is merged with the other's value, and an entry of another key comes last,
    /// with a clone of the other's value.
    open spec fn merge_of(
        this: Seq<(K::V, V::V)>,
        other: Seq<(K::V, V::V)>,
        result: Seq<(K::V, V::V)>,
    ) -> bool {
        exists|states: Seq<Seq<(K::V, V::V)>>|
            #[trigger] merge_trace::<K, V>(this, other, states) && states.last() == result
    }

    /// Merges another map into this one, entry by entry.
    fn merge(&mut self, other: &MapField<K, V>) {
        proof {
            use_type_invariant(&*self);
            use_type_invariant(other);
        }
        let ghost start = self@;
        let mut this = MapField::new();
        core::mem::swap(self, &mut this);
        let MapField { entries: mut entries } = this;
        let ghost os = other@;
        let ghost mut states = seq![start];
        let mut i: usize = 0;
        while i < other.entries.len()
            invariant
                os == other@,
                os == pairs_view(other.entries@),
                os.len() == other.entries@.len(),
                i <= os.len(),
                keys_distinct(pairs_view(entries@)),
                states.len() == i + 1,
                states[0] == start,
                states.last() == pairs_view(entries@),
                forall|a: int| 0 <= a < i ==> merged_step::<K, V>(#[trigger] states[a], os[a], states[a + 1]),
            decreases os.len() - i,
        {
            let ghost mid = pairs_view(entries@);
            let ghost e = os[i as int];
            let k = &other.entries[i].0;
            let v = &other.entries[i].1;
            match find_key(&entries, k) {
                Some(j) => {
                    proof {
                        assert(has_key(mid, e.0));
                        assert(key_position(mid, e.0) == j as int);
                    }
                    let (k0, mut v0) = entries.remove(j);
                    v0.merge(v);
                    entries.insert(j, (k0, v0));
                    proof {
                        let res = pairs_view(entries@);
                        assert forall|a: int| 0 <= a < mid.len() && a != j implies #[trigger] res[a] == mid[a] by {}
                        assert forall|a: int, b: int| 0 <= a < b < res.len() implies #[trigger] res[a].0 != #[trigger] res[b].0 by {
                            assert(res[a].0 == mid[a].0 && res[b].0 == mid[b].0);
                        }
                        assert(merged_step::<K, V>(mid, e, res));
                    }
                },
                None => {
                    let k1 = k.key_clone();
                    let v1 = v.clone();
                    entries.push((k1, v1));
                    proof {
                        let res = pairs_view(entries@);
                        assert(res.drop_last() =~= mid);
                        assert(cloned::<V>(*v, v1));
                        assert forall|a: int, b: int| 0 <= a < b < res.len() implies #[trigger] res[a].0 != #[trigger] res[b].0 by {
                            if b == mid.len() {
                                assert(mid[a].0 != e.0);
                            } else {
                                assert(res[a].0 == mid[a].0 && res[b].0 == mid[b].0);
                            }
                        }
                        assert(merged_step::<K, V>(mid, e, res));
                    }
                },
            }
            proof {
                let res = pairs_view(entries@);
                assert(merged_step::<K, V>(mid, e, res));
                states = states.push(res);
                assert forall|a: int| 0 <= a < i + 1 implies merged_step::<K, V>(#[trigger] states[a], os[a], states[a + 1]) by {
                    if a == i {
                        assert(states[a] == mid);
                    }
                }
            }
            i = i + 1;
        }
        proof {
            assert(merge_trace::<K, V>(start, os, states));
        }
        *self = MapField { entries };
    }
}

} // verus!
