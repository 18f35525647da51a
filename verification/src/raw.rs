//! Contains types for protobuf values and the operations each value type has on the wire:
//! its size, how it is written and how it is read back.

use vstd::prelude::*;
use vstd::bytes::*;
use vstd::utf8::*;
use crate::io::{
    WireType, Length, LengthBuilder, FieldNumber, Tag, tag_value, varint_bytes, varint_len, builder_sum,
    raw_varint32_size, raw_varint64_size, lemma_varint_roundtrip, lemma_varint_len_thresholds,
};
use crate::io::read::{
    self, CodedReader, Error as ReadError, varint_read, fixed_read, length_delimited_read, moved,
    same_but_position, lemma_varint_read_encoding, lemma_length_delimited_read_encoding,
    lemma_varint_read_len, lemma_length_delimited_read_len,
};
use crate::io::write::{
    CodedWriter, appended, parts_written, parts_bytes, parts_encodable, lemma_parts_bytes_append,
    lemma_parts_written_fit,
    Error as WriteError, Result as WriteResult,
};

verus! {

/// What adding the size of a value to a builder holding `total` gives: `None` where the value
/// cannot be written or the sum does not fit in an `i32`.
pub open spec fn size_added(total: int, encodable: bool, len: int, r: Option<LengthBuilder>) -> bool {
    if encodable {
        match builder_sum(total, len) {
            Some(t) => r matches Some(b) && b@ == t,
            None => r is None,
        }
    } else {
        r is None
    }
}

/// The size of `parts` when they can all be written and their bytes fit in a length.
pub open spec fn parts_size(parts: Seq<(bool, Seq<u8>)>) -> Option<int> {
    if parts_encodable(parts) && parts_bytes(parts).len() <= i32::MAX {
        Some(parts_bytes(parts).len() as int)
    } else {
        None
    }
}

/// Adding the sizes of two runs of parts one after the other adds the size of both runs.
pub proof fn lemma_size_chain(
    total: int,
    p1: Seq<(bool, Seq<u8>)>,
    p2: Seq<(bool, Seq<u8>)>,
    r1: Option<LengthBuilder>,
    r2: Option<LengthBuilder>,
)
    requires
        size_added(total, parts_encodable(p1), parts_bytes(p1).len() as int, r1),
        r1 matches Some(b1) ==> size_added(b1@ as int, parts_encodable(p2), parts_bytes(p2).len() as int, r2),
    ensures
        r1 is None ==> size_added(total, parts_encodable(p1 + p2), parts_bytes(p1 + p2).len() as int, r1),
        r1 is Some ==> size_added(total, parts_encodable(p1 + p2), parts_bytes(p1 + p2).len() as int, r2),
{
    lemma_parts_bytes_append(p1, p2);
    lemma_parts_encodable_two(p1, p2);
}

/// Where the size of a run of parts cannot be added to a builder, neither can the size of any
/// longer run that starts with it.
pub proof fn lemma_size_prefix(total: int, p1: Seq<(bool, Seq<u8>)>, p2: Seq<(bool, Seq<u8>)>)
    requires
        size_added(total, parts_encodable(p1), parts_bytes(p1).len() as int, None),
    ensures
        size_added(total, parts_encodable(p1 + p2), parts_bytes(p1 + p2).len() as int, None),
{
    lemma_parts_bytes_append(p1, p2);
    lemma_parts_encodable_two(p1, p2);
}

/// What was sized can be written: where parts have a size `n`, writing them where `n` bytes
/// are left succeeds and writes exactly their bytes, `n` of them.
pub proof fn lemma_sized_write(p: Seq<(bool, Seq<u8>)>, before: Seq<u8>, cap: nat, n: int)
    requires
        parts_size(p) == Some(n),
        before.len() + n <= cap,
    ensures
        parts_written(before, cap, p) == (before + parts_bytes(p), Ok::<(), WriteError>(())),
        parts_bytes(p).len() == n,
{
    lemma_parts_written_fit(before, cap, p);
}

/// A value whose size was added to an empty builder can be written where that many bytes are
/// left: writing it succeeds and appends its encoding, that many bytes.
pub proof fn lemma_sized_value_write<V: Value>(
    v: <V::Inner as View>::V,
    b: LengthBuilder,
    w0: CodedWriter,
    w1: CodedWriter,
    r: WriteResult,
)
    requires
        size_added(0, V::encodable(v), V::encoding(v).len() as int, Some(b)),
        w0.written().len() + b@ <= w0.capacity(),
        value_written(w0, w1, V::encodable(v), V::encoding(v), r),
    ensures
        r is Ok,
        w1.written() == w0.written() + V::encoding(v),
        V::encoding(v).len() == b@,
{
}

/// Two runs of parts can both be written exactly when their concatenation can.
pub proof fn lemma_parts_encodable_two(p1: Seq<(bool, Seq<u8>)>, p2: Seq<(bool, Seq<u8>)>)
    ensures
        parts_encodable(p1 + p2) == (parts_encodable(p1) && parts_encodable(p2)),
{
    if parts_encodable(p1) && parts_encodable(p2) {
        assert forall|i: int| 0 <= i < (p1 + p2).len() implies #[trigger] (p1 + p2)[i].0 by {
            if i >= p1.len() {
                assert((p1 + p2)[i] == p2[i - p1.len()]);
            }
        }
    }
    if parts_encodable(p1 + p2) {
        assert forall|i: int| 0 <= i < p1.len() implies #[trigger] p1[i].0 by {
            assert((p1 + p2)[i] == p1[i]);
        }
        assert forall|i: int| 0 <= i < p2.len() implies #[trigger] p2[i].0 by {
            assert((p1 + p2)[i + p1.len()] == p2[i]);
        }
    }
}

/// What writing a value whose encoding is `bytes` does to a writer: a value that cannot be
/// written is refused with `ValueTooLarge` and nothing is written; else `bytes` are appended.
pub open spec fn value_written(
    old: CodedWriter,
    new: CodedWriter,
    encodable: bool,
    bytes: Seq<u8>,
    r: WriteResult,
) -> bool {
    &&& new.capacity() == old.capacity()
    &&& if encodable {
        appended(old.written(), old.capacity(), bytes, new.written(), r)
    } else {
        r == Err::<(), WriteError>(WriteError::ValueTooLarge) && new.written() == old.written()
    }
}

/// What reading a value whose outcome is `d` does to a reader: on success the value is given
/// back and the reader moves past it; on an error the reader keeps all but its position.
pub open spec fn value_read<T: View>(
    old: CodedReader,
    new: CodedReader,
    d: read::Result<(int, T::V)>,
    r: read::Result<T>,
) -> bool {
    match d {
        Ok((n, v)) => r matches Ok(x) && x@ == v && moved(old, new, n),
        Err(e) => r matches Err(e2) && e2 == e && same_but_position(old, new),
    }
}

/// The outcome of reading a varint from the front of `s`, its value mapped by `f`.
pub open spec fn varint_decoded<T>(s: Seq<u8>, f: spec_fn(u64) -> T) -> read::Result<(int, T)> {
    match varint_read(s) {
        Ok((n, w)) => Ok((n, f(w))),
        Err(e) => Err(e),
    }
}

/// The outcome of reading `k` little endian bytes from the front of `s`, mapped by `f`.
pub open spec fn fixed_decoded<T>(s: Seq<u8>, k: int, f: spec_fn(Seq<u8>) -> T) -> read::Result<(int, T)> {
    match fixed_read(s, k) {
        Ok(b) => Ok((k, f(b))),
        Err(e) => Err(e),
    }
}

/// A protobuf value type paired with a Rust type used to represent that type in code.
///
/// Multiple value types may have the same Rust type representation.
pub trait ValueType {
    /// The Rust type used to represent this protobuf type in code.
    type Inner: View;
}

/// A value type with what its values are on the wire: how they are sized, written and read.
pub trait Value: ValueType {
    /// The wire type of the value without packing.
    spec fn spec_wire_type() -> WireType;

    /// Whether a value can be written at all.
    spec fn encodable(v: <Self::Inner as View>::V) -> bool;

    /// The bytes a value is written as.
    spec fn encoding(v: <Self::Inner as View>::V) -> Seq<u8>;

    /// What reading a value of this type from the front of `s` gives: the number of bytes read
    /// and the value, or the error.
    spec fn decoding(s: Seq<u8>) -> read::Result<(int, <Self::Inner as View>::V)>;

    /// Gets the wire type of the value without packing.
    fn wire_type() -> (r: WireType)
        ensures
            r == Self::spec_wire_type(),
    ;

    /// Calculates the size of the value as encoded on the wire, adding it to the builder.
    fn calculate_size(this: &Self::Inner, builder: LengthBuilder) -> (r: Option<LengthBuilder>)
        ensures
            size_added(builder@ as int, Self::encodable(this@), Self::encoding(this@).len() as int, r),
    ;

    /// Merges the value with the reader: the value read replaces it. On an error it is unchanged.
    fn merge_from(this: &mut Self::Inner, input: &mut CodedReader) -> (r: read::Result<()>)
        ensures
            match Self::decoding(old(input).available()) {
                Ok((n, v)) => r is Ok && final(this)@ == v && moved(*old(input), *final(input), n),
                Err(e) => r == Err::<(), ReadError>(e) && *final(this) == *old(this)
                    && same_but_position(*old(input), *final(input)),
            },
    ;

    /// Writes the value to the writer.
    fn write_to(this: &Self::Inner, output: &mut CodedWriter) -> (r: WriteResult)
        ensures
            value_written(
                *old(output),
                *final(output),
                Self::encodable(this@),
                Self::encoding(this@),
                r,
            ),
            (*final(final(output).target()))@ == (*final(old(output).target()))@,
    ;

    /// Returns whether the value is initialized; values of these types always are.
    fn is_initialized(this: &Self::Inner) -> (r: bool)
        ensures
            r,
    ;

    /// Reads a new instance of the value.
    fn read_new(input: &mut CodedReader) -> (r: read::Result<Self::Inner>)
        ensures
            value_read::<Self::Inner>(*old(input), *final(input), Self::decoding(old(input).available()), r),
    ;

    /// Reading a value back from its encoding, followed by anything, gives the value and
    /// takes the whole encoding.
    proof fn lemma_roundtrip(v: <Self::Inner as View>::V, rest: Seq<u8>)
        requires
            Self::encodable(v),
        ensures
            Self::decoding(Self::encoding(v) + rest) == Ok::<(int, <Self::Inner as View>::V), ReadError>(
                (Self::encoding(v).len() as int, v),
            ),
    ;

    /// A value that is read takes at least one byte and no more than are there.
    proof fn lemma_decoding_len(s: Seq<u8>)
        ensures
            Self::decoding(s) matches Ok((n, v)) ==> 1 <= n <= s.len(),
    ;
}

/// A value with a constant size.
pub trait ConstSized: Value {
    /// The constant size of the value.
    spec fn spec_size() -> nat;

    /// The constant size of the value.
    fn size() -> (r: Length)
        ensures
            r@ == Self::spec_size(),
    ;

    /// Every value of the type is encoded in `spec_size()` bytes.
    proof fn lemma_size(v: <Self::Inner as View>::V)
        ensures
            Self::encoding(v).len() == Self::spec_size(),
            Self::encodable(v),
    ;
}

/// A value type whose repeated fields may be packed.
pub trait Packable: Value {
}

/// A packed value type used with packed repeated fields.
pub struct Packed<V>(pub V);

impl<V: Packable> ValueType for Packed<V> {
    type Inner = V::Inner;
}

/// The zig-zag encoding of a 32-bit value: small magnitudes, positive or negative, get small
/// unsigned values.
pub open spec fn zigzag32(v: i32) -> u32 {
    ((v << 1u32) ^ (v >> 31u32)) as u32
}

/// The value a zig-zag encoded 32-bit value stands for.
pub open spec fn unzigzag32(u: u32) -> i32 {
    ((u >> 1u32) as i32) ^ ((0i32 - ((u & 1u32) as i32)) as i32)
}

/// The zig-zag encoding of a 64-bit value.
pub open spec fn zigzag64(v: i64) -> u64 {
    ((v << 1u64) ^ (v >> 63u64)) as u64
}

/// The value a zig-zag encoded 64-bit value stands for.
pub open spec fn unzigzag64(u: u64) -> i64 {
    ((u >> 1u64) as i64) ^ ((0i64 - ((u & 1u64) as i64)) as i64)
}

/// Decoding a zig-zag encoded value gives the value back.
pub proof fn lemma_zigzag_roundtrip(v: i32, w: i64)
    ensures
        unzigzag32(zigzag32(v)) == v,
        unzigzag64(zigzag64(w)) == w,
{
    let u = zigzag32(v);
    let x = zigzag64(w);
    assert(((((((v << 1u32) ^ (v >> 31u32)) as u32) >> 1u32) as i32) ^ ((0i32 - (((((v << 1u32)
        ^ (v >> 31u32)) as u32) & 1u32) as i32)) as i32)) == v) by (bit_vector);
    assert(((((((w << 1u64) ^ (w >> 63u64)) as u64) >> 1u64) as i64) ^ ((0i64 - (((((w << 1u64)
        ^ (w >> 63u64)) as u64) & 1u64) as i64)) as i64)) == w) by (bit_vector);
}

/// The outcome of reading a varint whose value is cut to 32 bits.
proof fn lemma_cast_roundtrips(v: i32, w: i64, u: u32)
    ensures
        ((((v as i64) as u64) as u32) as i32) == v,
        (((w as u64) as i64)) == w,
        (((u as u64) as u32)) == u,
        v >= 0 ==> ((v as u32) as u64) == ((v as i64) as u64),
        v < 0 ==> ((v as i64) as u64) >= 0x8000_0000_0000_0000u64,
{
    assert(((((v as i64) as u64) as u32) as i32) == v) by (bit_vector);
    assert(((w as u64) as i64) == w) by (bit_vector);
    assert(((u as u64) as u32) == u) by (bit_vector);
    assert(v >= 0 ==> ((v as u32) as u64) == ((v as i64) as u64)) by (bit_vector);
    assert(v < 0 ==> ((v as i64) as u64) >= 0x8000_0000_0000_0000u64) by (bit_vector);
}


/// Zig-zag encodes a 32-bit value.
pub fn zigzag_encode32(v: i32) -> (r: u32)
    ensures
        r == zigzag32(v),
{
    ((v << 1u32) ^ (v >> 31u32)) as u32
}

/// Decodes a zig-zag encoded 32-bit value.
pub fn zigzag_decode32(u: u32) -> (r: i32)
    ensures
        r == unzigzag32(u),
{
    assert(u & 1u32 <= 1) by (bit_vector);
    let low: i32 = (u & 1u32) as i32;
    ((u >> 1u32) as i32) ^ (0i32 - low)
}

/// Zig-zag encodes a 64-bit value.
pub fn zigzag_encode64(v: i64) -> (r: u64)
    ensures
        r == zigzag64(v),
{
    ((v << 1u64) ^ (v >> 63u64)) as u64
}

/// Decodes a zig-zag encoded 64-bit value.
pub fn zigzag_decode64(u: u64) -> (r: i64)
    ensures
        r == unzigzag64(u),
{
    assert(u & 1u64 <= 1) by (bit_vector);
    let low: i64 = (u & 1u64) as i64;
    ((u >> 1u64) as i64) ^ (0i64 - low)
}


/// The bytes of the tag made of a field number and a wire type.
pub open spec fn tag_bytes(num: u32, wt: WireType) -> Seq<u8> {
    varint_bytes(tag_value(num, wt) as u64)
}

/// The parts a field of value type `V` is written as: its tag, its value, and for a group the
/// end tag.
pub open spec fn field_parts<V: Value>(num: u32, v: <V::Inner as View>::V) -> Seq<(bool, Seq<u8>)> {
    let head = seq![(true, tag_bytes(num, V::spec_wire_type())), (V::encodable(v), V::encoding(v))];
    if V::spec_wire_type() == WireType::StartGroup {
        head.push((true, tag_bytes(num, WireType::EndGroup)))
    } else {
        head
    }
}

/// The bytes a field of value type `V` is written as.
pub open spec fn field_encoding<V: Value>(num: u32, v: <V::Inner as View>::V) -> Seq<u8> {
    tag_bytes(num, V::spec_wire_type()) + V::encoding(v) + if V::spec_wire_type() == WireType::StartGroup {
        tag_bytes(num, WireType::EndGroup)
    } else {
        Seq::empty()
    }
}

impl LengthBuilder {
    /// Adds a value's length to this builder.
    pub fn add_value<V: Value>(self, value: &V::Inner) -> (r: Option<LengthBuilder>)
        ensures
            size_added(self@ as int, V::encodable(value@), V::encoding(value@).len() as int, r),
    {
        V::calculate_size(value, self)
    }

    /// Adds a field's length to this builder: its tag, its value and for a group its end tag.
    pub fn add_field<V: Value>(self, num: FieldNumber, value: &V::Inner) -> (r: Option<LengthBuilder>)
        ensures
            size_added(self@ as int, V::encodable(value@), field_encoding::<V>(num@, value@).len() as int, r),
    {
        let wt = V::wire_type();
        proof {
            lemma_varint_roundtrip(tag_value(num@, wt) as u64);
            lemma_varint_roundtrip(tag_value(num@, WireType::EndGroup) as u64);
        }
        let b = match self.add_tag(Tag::new(num, wt)) {
            Some(b) => b,
            None => return None,
        };
        let b = match V::calculate_size(value, b) {
            Some(b) => b,
            None => return None,
        };
        if wt == WireType::StartGroup {
            b.add_tag(Tag::new(num, WireType::EndGroup))
        } else {
            Some(b)
        }
    }

    /// Adds a field's length to this builder if it is there, otherwise gives the builder back.
    pub fn add_optional_field<V: Value>(self, num: FieldNumber, value: Option<&V::Inner>) -> (r: Option<LengthBuilder>)
        ensures
            value is None ==> r == Some(self),
            value matches Some(v) ==> size_added(
                self@ as int,
                V::encodable(v@),
                field_encoding::<V>(num@, v@).len() as int,
                r,
            ),
    {
        match value {
            Some(v) => self.add_field::<V>(num, v),
            None => Some(self),
        }
    }
}

impl Length {
    /// Returns the length of a value: `None` if it cannot be written or its length does not
    /// fit in an `i32`.
    pub fn of_value<V: Value>(value: &V::Inner) -> (r: Option<Length>)
        ensures
            V::encodable(value@) && V::encoding(value@).len() <= i32::MAX ==> (r matches Some(l)
                && l@ == V::encoding(value@).len()),
            !(V::encodable(value@) && V::encoding(value@).len() <= i32::MAX) ==> r is None,
    {
        match LengthBuilder::new().add_value::<V>(value) {
            Some(b) => Some(b.build()),
            None => None,
        }
    }
}

impl<'a> CodedWriter<'a> {
    /// Writes a value to the output.
    pub fn write_value<V: Value>(&mut self, value: &V::Inner) -> (r: WriteResult)
        ensures
            value_written(*old(self), *final(self), V::encodable(value@), V::encoding(value@), r),
            (*final(final(self).target()))@ == (*final(old(self).target()))@,
    {
        V::write_to(value, self)
    }

    /// Writes a field to the output: the tag made of the field number and the value's wire
    /// type, the value, and for a group the end tag.
    pub fn write_field<V: Value>(&mut self, num: FieldNumber, value: &V::Inner) -> (r: WriteResult)
        ensures
            (final(self).written(), r) == parts_written(
                old(self).written(),
                old(self).capacity(),
                field_parts::<V>(num@, value@),
            ),
            final(self).capacity() == old(self).capacity(),
            (*final(final(self).target()))@ == (*final(old(self).target()))@,
    {
        let wt = V::wire_type();
        let ghost parts = field_parts::<V>(num@, value@);
        proof {
            reveal_with_fuel(parts_written, 4);
            assert(parts.drop_first().drop_first().len() == if wt == WireType::StartGroup { 1int } else { 0int });
        }
        match self.write_tag(Tag::new(num, wt)) {
            Ok(()) => {},
            Err(e) => return Err(e),
        }
        match V::write_to(value, self) {
            Ok(()) => {},
            Err(e) => return Err(e),
        }
        if wt == WireType::StartGroup {
            self.write_tag(Tag::new(num, WireType::EndGroup))
        } else {
            Ok(())
        }
    }
}

impl<'a> CodedReader<'a> {
    /// Reads a new instance of a value from the reader.
    pub fn read_value<V: Value>(&mut self) -> (r: read::Result<V::Inner>)
        ensures
            value_read::<V::Inner>(*old(self), *final(self), V::decoding(old(self).available()), r),
    {
        V::read_new(self)
    }

    /// Merges a value with the value read from the reader.
    pub fn merge_value<V: Value>(&mut self, value: &mut V::Inner) -> (r: read::Result<()>)
        ensures
            match V::decoding(old(self).available()) {
                Ok((n, v)) => r is Ok && final(value)@ == v && moved(*old(self), *final(self), n),
                Err(e) => r == Err::<(), ReadError>(e) && *final(value) == *old(value)
                    && same_but_position(*old(self), *final(self)),
            },
    {
        V::merge_from(value, self)
    }
}

/// A varint encoded 32-bit value. Negative values are encoded as 10-byte varints.
pub struct Int32(pub i32);


impl ValueType for Int32 {
    type Inner = i32;
}

impl Value for Int32 {

    open spec fn spec_wire_type() -> WireType {
        WireType::Varint
    }

    open spec fn encodable(v: i32) -> bool {
        true
    }

    open spec fn encoding(v: i32) -> Seq<u8> {
        varint_bytes((v as i64) as u64)
    }

    open spec fn decoding(s: Seq<u8>) -> read::Result<(int, i32)> {
        varint_decoded(s, |w: u64| (w as u32) as i32)
    }

    fn wire_type() -> (r: WireType) {
        WireType::Varint
    }

    proof fn lemma_decoding_len(s: Seq<u8>) {
        lemma_varint_read_len(s);
    }

    fn calculate_size(this: &i32, builder: LengthBuilder) -> (r: Option<LengthBuilder>) {
        let v = *this;
        proof {
            lemma_cast_roundtrips(v, 0, 0);
            lemma_varint_len_thresholds((v as i64) as u64);
            lemma_varint_roundtrip((v as i64) as u64);
        }
        if v >= 0 {
            builder.add_bytes(raw_varint32_size(v as u32))
        } else {
            builder.add_bytes(raw_varint64_size((v as i64) as u64))
        }
    }

    fn merge_from(this: &mut i32, input: &mut CodedReader) -> (r: read::Result<()>) {
        match Self::read_new(input) {
            Ok(v) => {
                *this = v;
                Ok(())
            },
            Err(e) => Err(e),
        }
    }

    fn write_to(this: &i32, output: &mut CodedWriter) -> (r: WriteResult) {
        let v = *this;
        proof {
            lemma_cast_roundtrips(v, 0, 0);
        }
        if v >= 0 {
            output.write_varint32(v as u32)
        } else {
            output.write_varint64((v as i64) as u64)
        }
    }

    fn is_initialized(this: &i32) -> (r: bool) {
        true
    }

    fn read_new(input: &mut CodedReader) -> (r: read::Result<i32>) {
        match input.read_varint32() {
            Ok(v) => Ok(v as i32),
            Err(e) => Err(e),
        }
    }

    proof fn lemma_roundtrip(v: i32, rest: Seq<u8>) {
        lemma_cast_roundtrips(v, 0, 0);
        lemma_varint_read_encoding((v as i64) as u64, rest);
        lemma_varint_roundtrip((v as i64) as u64);
    }
}

impl Packable for Int32 {
}

/// A varint encoded 32-bit value. Can be at most 5 bytes.
pub struct Uint32;

impl ValueType for Uint32 {
    type Inner = u32;
}

impl Value for Uint32 {

    open spec fn spec_wire_type() -> WireType {
        WireType::Varint
    }

    open spec fn encodable(v: u32) -> bool {
        true
    }

    open spec fn encoding(v: u32) -> Seq<u8> {
        varint_bytes(v as u64)
    }

    open spec fn decoding(s: Seq<u8>) -> read::Result<(int, u32)> {
        varint_decoded(s, |w: u64| w as u32)
    }

    fn wire_type() -> (r: WireType) {
        WireType::Varint
    }

    proof fn lemma_decoding_len(s: Seq<u8>) {
        lemma_varint_read_len(s);
    }

    fn calculate_size(this: &u32, builder: LengthBuilder) -> (r: Option<LengthBuilder>) {
        proof {
            lemma_varint_roundtrip(*this as u64);
        }
        builder.add_bytes(raw_varint32_size(*this))
    }

    fn merge_from(this: &mut u32, input: &mut CodedReader) -> (r: read::Result<()>) {
        match Self::read_new(input) {
            Ok(v) => {
                *this = v;
                Ok(())
            },
            Err(e) => Err(e),
        }
    }

    fn write_to(this: &u32, output: &mut CodedWriter) -> (r: WriteResult) {
        output.write_varint32(*this)
    }

    fn is_initialized(this: &u32) -> (r: bool) {
        true
    }

    fn read_new(input: &mut CodedReader) -> (r: read::Result<u32>) {
        input.read_varint32()
    }

    proof fn lemma_roundtrip(v: u32, rest: Seq<u8>) {
        lemma_cast_roundtrips(0, 0, v);
        lemma_varint_read_encoding(v as u64, rest);
        lemma_varint_roundtrip(v as u64);
    }
}

impl Packable for Uint32 {
}


/// A varint encoded 64-bit value. Can be at most 10 bytes.
pub struct Int64;

impl ValueType for Int64 {
    type Inner = i64;
}

impl Value for Int64 {

    open spec fn spec_wire_type() -> WireType {
        WireType::Varint
    }

    open spec fn encodable(v: i64) -> bool {
        true
    }

    open spec fn encoding(v: i64) -> Seq<u8> {
        varint_bytes(v as u64)
    }

    open spec fn decoding(s: Seq<u8>) -> read::Result<(int, i64)> {
        varint_decoded(s, |w: u64| w as i64)
    }

    fn wire_type() -> (r: WireType) {
        WireType::Varint
    }

    proof fn lemma_decoding_len(s: Seq<u8>) {
        lemma_varint_read_len(s);
    }

    fn calculate_size(this: &i64, builder: LengthBuilder) -> (r: Option<LengthBuilder>) {
        proof {
            lemma_varint_roundtrip(*this as u64);
        }
        builder.add_bytes(raw_varint64_size(*this as u64))
    }

    fn merge_from(this: &mut i64, input: &mut CodedReader) -> (r: read::Result<()>) {
        match Self::read_new(input) {
            Ok(v) => {
                *this = v;
                Ok(())
            },
            Err(e) => Err(e),
        }
    }

    fn write_to(this: &i64, output: &mut CodedWriter) -> (r: WriteResult) {
        output.write_varint64(*this as u64)
    }

    fn is_initialized(this: &i64) -> (r: bool) {
        true
    }

    fn read_new(input: &mut CodedReader) -> (r: read::Result<i64>) {
        match input.read_varint64() {
            Ok(v) => Ok(v as i64),
            Err(e) => Err(e),
        }
    }

    proof fn lemma_roundtrip(v: i64, rest: Seq<u8>) {
        lemma_cast_roundtrips(0, v, 0);
        lemma_varint_read_encoding(v as u64, rest);
        lemma_varint_roundtrip(v as u64);
    }
}

impl Packable for Int64 {
}


/// A varint encoded 64-bit value. Can be at most 10 bytes.
pub struct Uint64;

impl ValueType for Uint64 {
    type Inner = u64;
}

impl Value for Uint64 {

    open spec fn spec_wire_type() -> WireType {
        WireType::Varint
    }

    open spec fn encodable(v: u64) -> bool {
        true
    }

    open spec fn encoding(v: u64) -> Seq<u8> {
        varint_bytes(v)
    }

    open spec fn decoding(s: Seq<u8>) -> read::Result<(int, u64)> {
        varint_decoded(s, |w: u64| w)
    }

    fn wire_type() -> (r: WireType) {
        WireType::Varint
    }

    proof fn lemma_decoding_len(s: Seq<u8>) {
        lemma_varint_read_len(s);
    }

    fn calculate_size(this: &u64, builder: LengthBuilder) -> (r: Option<LengthBuilder>) {
        proof {
            lemma_varint_roundtrip(*this);
        }
        builder.add_bytes(raw_varint64_size(*this))
    }

    fn merge_from(this: &mut u64, input: &mut CodedReader) -> (r: read::Result<()>) {
        match Self::read_new(input) {
            Ok(v) => {
                *this = v;
                Ok(())
            },
            Err(e) => Err(e),
        }
    }

    fn write_to(this: &u64, output: &mut CodedWriter) -> (r: WriteResult) {
        output.write_varint64(*this)
    }

    fn is_initialized(this: &u64) -> (r: bool) {
        true
    }

    fn read_new(input: &mut CodedReader) -> (r: read::Result<u64>) {
        input.read_varint64()
    }

    proof fn lemma_roundtrip(v: u64, rest: Seq<u8>) {
        lemma_varint_read_encoding(v, rest);
        lemma_varint_roundtrip(v);
    }
}

impl Packable for Uint64 {
}


/// A varint encoded 32-bit value. This is encoded using zig-zag encoding,
/// which makes it more effecient at encoding negative values.
pub struct Sint32;

impl ValueType for Sint32 {
    type Inner = i32;
}

impl Value for Sint32 {

    open spec fn spec_wire_type() -> WireType {
        WireType::Varint
    }

    open spec fn encodable(v: i32) -> bool {
        true
    }

    open spec fn encoding(v: i32) -> Seq<u8> {
        varint_bytes(zigzag32(v) as u64)
    }

    open spec fn decoding(s: Seq<u8>) -> read::Result<(int, i32)> {
        varint_decoded(s, |w: u64| unzigzag32(w as u32))
    }

    fn wire_type() -> (r: WireType) {
        WireType::Varint
    }

    proof fn lemma_decoding_len(s: Seq<u8>) {
        lemma_varint_read_len(s);
    }

    fn calculate_size(this: &i32, builder: LengthBuilder) -> (r: Option<LengthBuilder>) {
        let z = zigzag_encode32(*this);
        proof {
            lemma_varint_roundtrip(z as u64);
        }
        builder.add_bytes(raw_varint32_size(z))
    }

    fn merge_from(this: &mut i32, input: &mut CodedReader) -> (r: read::Result<()>) {
        match Self::read_new(input) {
            Ok(v) => {
                *this = v;
                Ok(())
            },
            Err(e) => Err(e),
        }
    }

    fn write_to(this: &i32, output: &mut CodedWriter) -> (r: WriteResult) {
        output.write_varint32(zigzag_encode32(*this))
    }

    fn is_initialized(this: &i32) -> (r: bool) {
        true
    }

    fn read_new(input: &mut CodedReader) -> (r: read::Result<i32>) {
        match input.read_varint32() {
            Ok(u) => Ok(zigzag_decode32(u)),
            Err(e) => Err(e),
        }
    }

    proof fn lemma_roundtrip(v: i32, rest: Seq<u8>) {
        lemma_zigzag_roundtrip(v, 0);
        lemma_cast_roundtrips(0, 0, zigzag32(v));
        lemma_varint_read_encoding(zigzag32(v) as u64, rest);
        lemma_varint_roundtrip(zigzag32(v) as u64);
    }
}

impl Packable for Sint32 {
}


/// A varint encoded 64-bit value. This encoded using zig-zag encoding,
/// which makes it more effecient at encoding negative values.
pub struct Sint64;

impl ValueType for Sint64 {
    type Inner = i64;
}

impl Value for Sint64 {

    open spec fn spec_wire_type() -> WireType {
        WireType::Varint
    }

    open spec fn encodable(v: i64) -> bool {
        true
    }

    open spec fn encoding(v: i64) -> Seq<u8> {
        varint_bytes(zigzag64(v))
    }

    open spec fn decoding(s: Seq<u8>) -> read::Result<(int, i64)> {
        varint_decoded(s, |w: u64| unzigzag64(w))
    }

    fn wire_type() -> (r: WireType) {
        WireType::Varint
    }

    proof fn lemma_decoding_len(s: Seq<u8>) {
        lemma_varint_read_len(s);
    }

    fn calculate_size(this: &i64, builder: LengthBuilder) -> (r: Option<LengthBuilder>) {
        let z = zigzag_encode64(*this);
        proof {
            lemma_varint_roundtrip(z);
        }
        builder.add_bytes(raw_varint64_size(z))
    }

    fn merge_from(this: &mut i64, input: &mut CodedReader) -> (r: read::Result<()>) {
        match Self::read_new(input) {
            Ok(v) => {
                *this = v;
                Ok(())
            },
            Err(e) => Err(e),
        }
    }

    fn write_to(this: &i64, output: &mut CodedWriter) -> (r: WriteResult) {
        output.write_varint64(zigzag_encode64(*this))
    }

    fn is_initialized(this: &i64) -> (r: bool) {
        true
    }

    fn read_new(input: &mut CodedReader) -> (r: read::Result<i64>) {
        match input.read_varint64() {
            Ok(u) => Ok(zigzag_decode64(u)),
            Err(e) => Err(e),
        }
    }

    proof fn lemma_roundtrip(v: i64, rest: Seq<u8>) {
        lemma_zigzag_roundtrip(0, v);
        lemma_varint_read_encoding(zigzag64(v), rest);
        lemma_varint_roundtrip(zigzag64(v));
    }
}

impl Packable for Sint64 {
}


/// A fixed size 32-bit value. This is encoded as 4 little endian bytes.
pub struct Fixed32;

impl ValueType for Fixed32 {
    type Inner = u32;
}

impl Value for Fixed32 {

    open spec fn spec_wire_type() -> WireType {
        WireType::Bit32
    }

    open spec fn encodable(v: u32) -> bool {
        true
    }

    open spec fn encoding(v: u32) -> Seq<u8> {
        spec_u32_to_le_bytes(v)
    }

    open spec fn decoding(s: Seq<u8>) -> read::Result<(int, u32)> {
        fixed_decoded(s, 4, |b: Seq<u8>| spec_u32_from_le_bytes(b))
    }

    fn wire_type() -> (r: WireType) {
        WireType::Bit32
    }

    proof fn lemma_decoding_len(s: Seq<u8>) {
    }

    fn calculate_size(this: &u32, builder: LengthBuilder) -> (r: Option<LengthBuilder>) {
        proof {
            lemma_auto_spec_u32_to_from_le_bytes();
        }
        builder.add_bytes(Self::size())
    }

    fn merge_from(this: &mut u32, input: &mut CodedReader) -> (r: read::Result<()>) {
        match Self::read_new(input) {
            Ok(v) => {
                *this = v;
                Ok(())
            },
            Err(e) => Err(e),
        }
    }

    fn write_to(this: &u32, output: &mut CodedWriter) -> (r: WriteResult) {
        output.write_bit32(*this)
    }

    fn is_initialized(this: &u32) -> (r: bool) {
        true
    }

    fn read_new(input: &mut CodedReader) -> (r: read::Result<u32>) {
        input.read_bit32()
    }

    proof fn lemma_roundtrip(v: u32, rest: Seq<u8>) {
        lemma_auto_spec_u32_to_from_le_bytes();
        let e = spec_u32_to_le_bytes(v);
        assert((e + rest).take(4) =~= e);
    }
}

impl ConstSized for Fixed32 {
    open spec fn spec_size() -> nat {
        4
    }

    #[verifier::spinoff_prover]
    fn size() -> (r: Length) {
        Length::new_unchecked(4)
    }

    proof fn lemma_size(v: u32) {
        lemma_auto_spec_u32_to_from_le_bytes();
    }
}

impl Packable for Fixed32 {
}


/// A fixed size 64-bit value. This is encoded as 8 little endian bytes.
pub struct Fixed64;

impl ValueType for Fixed64 {
    type Inner = u64;
}

impl Value for Fixed64 {

    open spec fn spec_wire_type() -> WireType {
        WireType::Bit64
    }

    open spec fn encodable(v: u64) -> bool {
        true
    }

    open spec fn encoding(v: u64) -> Seq<u8> {
        spec_u64_to_le_bytes(v)
    }

    open spec fn decoding(s: Seq<u8>) -> read::Result<(int, u64)> {
        fixed_decoded(s, 8, |b: Seq<u8>| spec_u64_from_le_bytes(b))
    }

    fn wire_type() -> (r: WireType) {
        WireType::Bit64
    }

    proof fn lemma_decoding_len(s: Seq<u8>) {
    }

    fn calculate_size(this: &u64, builder: LengthBuilder) -> (r: Option<LengthBuilder>) {
        proof {
            lemma_auto_spec_u64_to_from_le_bytes();
        }
        builder.add_bytes(Self::size())
    }

    fn merge_from(this: &mut u64, input: &mut CodedReader) -> (r: read::Result<()>) {
        match Self::read_new(input) {
            Ok(v) => {
                *this = v;
                Ok(())
            },
            Err(e) => Err(e),
        }
    }

    fn write_to(this: &u64, output: &mut CodedWriter) -> (r: WriteResult) {
        output.write_bit64(*this)
    }

    fn is_initialized(this: &u64) -> (r: bool) {
        true
    }

    fn read_new(input: &mut CodedReader) -> (r: read::Result<u64>) {
        input.read_bit64()
    }

    proof fn lemma_roundtrip(v: u64, rest: Seq<u8>) {
        lemma_auto_spec_u64_to_from_le_bytes();
        let e = spec_u64_to_le_bytes(v);
        assert((e + rest).take(8) =~= e);
    }
}

impl ConstSized for Fixed64 {
    open spec fn spec_size() -> nat {
        8
    }

    #[verifier::spinoff_prover]
    fn size() -> (r: Length) {
        let r = Length::new_unchecked(8);
        assert(r@ == 8);
        assert(<Fixed64 as ConstSized>::spec_size() == 8);
        r
    }

    proof fn lemma_size(v: u64) {
        lemma_auto_spec_u64_to_from_le_bytes();
    }
}

impl Packable for Fixed64 {
}


/// A signed, fixed size 32-bit value. This is encoded as 4 little endian bytes.
pub struct Sfixed32;

impl ValueType for Sfixed32 {
    type Inner = i32;
}

impl Value for Sfixed32 {

    open spec fn spec_wire_type() -> WireType {
        WireType::Bit32
    }

    open spec fn encodable(v: i32) -> bool {
        true
    }

    open spec fn encoding(v: i32) -> Seq<u8> {
        spec_u32_to_le_bytes(v as u32)
    }

    open spec fn decoding(s: Seq<u8>) -> read::Result<(int, i32)> {
        fixed_decoded(s, 4, |b: Seq<u8>| spec_u32_from_le_bytes(b) as i32)
    }

    fn wire_type() -> (r: WireType) {
        WireType::Bit32
    }

    proof fn lemma_decoding_len(s: Seq<u8>) {
    }

    fn calculate_size(this: &i32, builder: LengthBuilder) -> (r: Option<LengthBuilder>) {
        proof {
            lemma_auto_spec_u32_to_from_le_bytes();
        }
        builder.add_bytes(Self::size())
    }

    fn merge_from(this: &mut i32, input: &mut CodedReader) -> (r: read::Result<()>) {
        match Self::read_new(input) {
            Ok(v) => {
                *this = v;
                Ok(())
            },
            Err(e) => Err(e),
        }
    }

    fn write_to(this: &i32, output: &mut CodedWriter) -> (r: WriteResult) {
        output.write_bit32(*this as u32)
    }

    fn is_initialized(this: &i32) -> (r: bool) {
        true
    }

    fn read_new(input: &mut CodedReader) -> (r: read::Result<i32>) {
        match input.read_bit32() {
            Ok(v) => Ok(v as i32),
            Err(e) => Err(e),
        }
    }

    proof fn lemma_roundtrip(v: i32, rest: Seq<u8>) {
        lemma_auto_spec_u32_to_from_le_bytes();
        let e = spec_u32_to_le_bytes(v as u32);
        assert((e + rest).take(4) =~= e);
        assert(((v as u32) as i32) == v) by (bit_vector);
    }
}

impl ConstSized for Sfixed32 {
    open spec fn spec_size() -> nat {
        4
    }

    #[verifier::spinoff_prover]
    fn size() -> (r: Length) {
        Length::new_unchecked(4)
    }

    proof fn lemma_size(v: i32) {
        lemma_auto_spec_u32_to_from_le_bytes();
    }
}

impl Packable for Sfixed32 {
}


/// A signed, fixed size 64-bit value. This is encoded as 8 little endian bytes.
pub struct Sfixed64;

impl ValueType for Sfixed64 {
    type Inner = i64;
}

impl Value for Sfixed64 {

    open spec fn spec_wire_type() -> WireType {
        WireType::Bit64
    }

    open spec fn encodable(v: i64) -> bool {
        true
    }

    open spec fn encoding(v: i64) -> Seq<u8> {
        spec_u64_to_le_bytes(v as u64)
    }

    open spec fn decoding(s: Seq<u8>) -> read::Result<(int, i64)> {
        fixed_decoded(s, 8, |b: Seq<u8>| spec_u64_from_le_bytes(b) as i64)
    }

    fn wire_type() -> (r: WireType) {
        WireType::Bit64
    }

    proof fn lemma_decoding_len(s: Seq<u8>) {
    }

    fn calculate_size(this: &i64, builder: LengthBuilder) -> (r: Option<LengthBuilder>) {
        proof {
            lemma_auto_spec_u64_to_from_le_bytes();
        }
        builder.add_bytes(Self::size())
    }

    fn merge_from(this: &mut i64, input: &mut CodedReader) -> (r: read::Result<()>) {
        match Self::read_new(input) {
            Ok(v) => {
                *this = v;
                Ok(())
            },
            Err(e) => Err(e),
        }
    }

    fn write_to(this: &i64, output: &mut CodedWriter) -> (r: WriteResult) {
        output.write_bit64(*this as u64)
    }

    fn is_initialized(this: &i64) -> (r: bool) {
        true
    }

    fn read_new(input: &mut CodedReader) -> (r: read::Result<i64>) {
        match input.read_bit64() {
            Ok(v) => Ok(v as i64),
            Err(e) => Err(e),
        }
    }

    proof fn lemma_roundtrip(v: i64, rest: Seq<u8>) {
        lemma_auto_spec_u64_to_from_le_bytes();
        let e = spec_u64_to_le_bytes(v as u64);
        assert((e + rest).take(8) =~= e);
        assert(((v as u64) as i64) == v) by (bit_vector);
    }
}

impl ConstSized for Sfixed64 {
    open spec fn spec_size() -> nat {
        8
    }

    #[verifier::spinoff_prover]
    fn size() -> (r: Length) {
        Length::new_unchecked(8)
    }

    proof fn lemma_size(v: i64) {
        lemma_auto_spec_u64_to_from_le_bytes();
    }
}

impl Packable for Sfixed64 {
}


/// A bool value. This is encoded as a varint value.
pub struct Bool;

impl ValueType for Bool {
    type Inner = bool;
}

impl Value for Bool {

    open spec fn spec_wire_type() -> WireType {
        WireType::Varint
    }

    open spec fn encodable(v: bool) -> bool {
        true
    }

    open spec fn encoding(v: bool) -> Seq<u8> {
        varint_bytes(if v { 1u64 } else { 0u64 })
    }

    open spec fn decoding(s: Seq<u8>) -> read::Result<(int, bool)> {
        varint_decoded(s, |w: u64| w != 0)
    }

    fn wire_type() -> (r: WireType) {
        WireType::Varint
    }

    proof fn lemma_decoding_len(s: Seq<u8>) {
        lemma_varint_read_len(s);
    }

    fn calculate_size(this: &bool, builder: LengthBuilder) -> (r: Option<LengthBuilder>) {
        proof {
            lemma_varint_roundtrip(if *this { 1u64 } else { 0u64 });
        }
        builder.add_bytes(Length::new_unchecked(1))
    }

    fn merge_from(this: &mut bool, input: &mut CodedReader) -> (r: read::Result<()>) {
        match Self::read_new(input) {
            Ok(v) => {
                *this = v;
                Ok(())
            },
            Err(e) => Err(e),
        }
    }

    fn write_to(this: &bool, output: &mut CodedWriter) -> (r: WriteResult) {
        let n: u32 = if *this { 1 } else { 0 };
        output.write_varint32(n)
    }

    fn is_initialized(this: &bool) -> (r: bool) {
        true
    }

    fn read_new(input: &mut CodedReader) -> (r: read::Result<bool>) {
        match input.read_varint64() {
            Ok(w) => Ok(w != 0),
            Err(e) => Err(e),
        }
    }

    proof fn lemma_roundtrip(v: bool, rest: Seq<u8>) {
        lemma_varint_read_encoding(if v { 1u64 } else { 0u64 }, rest);
        lemma_varint_roundtrip(if v { 1u64 } else { 0u64 });
    }
}

impl Packable for Bool {
}

impl ConstSized for Bool {
    open spec fn spec_size() -> nat {
        1
    }

    #[verifier::spinoff_prover]
    fn size() -> (r: Length) {
        Length::new_unchecked(1)
    }

    proof fn lemma_size(v: bool) {
        lemma_varint_roundtrip(if v { 1u64 } else { 0u64 });
    }
}


/// A string value. This is encoded as a length-delimited series of bytes.
pub struct String;

/// Makes a string of the bytes, or `None` if they are not UTF-8.
#[verifier::external_body]
fn string_from_utf8(bytes: Vec<u8>) -> (r: Option<std::string::String>)
    ensures
        r matches Some(s) ==> valid_utf8(bytes@) && s@ == decode_utf8(bytes@),
        r is None ==> !valid_utf8(bytes@),
{
    std::string::String::from_utf8(bytes).ok()
}

/// Adds the size of a length delimited value of `len` bytes: its length as a varint, then
/// its bytes. `None` where `len` does not fit in an `i32` or the total does not.
fn add_delimited_size(builder: LengthBuilder, len: usize) -> (r: Option<LengthBuilder>)
    ensures
        size_added(
            builder@ as int,
            len <= i32::MAX,
            (varint_len(len as u64) + len) as int,
            r,
        ),
{
    if len > 0x7fff_ffff {
        return None;
    }
    proof {
        lemma_varint_roundtrip(len as u64);
    }
    match builder.add_bytes(raw_varint32_size(len as u32)) {
        Some(b) => b.add_bytes(Length::new_unchecked(len as i32)),
        None => None,
    }
}

impl ValueType for String {
    type Inner = std::string::String;
}

impl Value for String {

    open spec fn spec_wire_type() -> WireType {
        WireType::LengthDelimited
    }

    open spec fn encodable(v: Seq<char>) -> bool {
        encode_utf8(v).len() <= i32::MAX
    }

    open spec fn encoding(v: Seq<char>) -> Seq<u8> {
        varint_bytes(encode_utf8(v).len() as u64) + encode_utf8(v)
    }

    open spec fn decoding(s: Seq<u8>) -> read::Result<(int, Seq<char>)> {
        match length_delimited_read(s) {
            Ok((n, b)) => if valid_utf8(b) {
                Ok((n, decode_utf8(b)))
            } else {
                Err(ReadError::InvalidString)
            },
            Err(e) => Err(e),
        }
    }

    fn wire_type() -> (r: WireType) {
        WireType::LengthDelimited
    }

    proof fn lemma_decoding_len(s: Seq<u8>) {
        lemma_length_delimited_read_len(s);
    }

    fn calculate_size(this: &std::string::String, builder: LengthBuilder) -> (r: Option<LengthBuilder>) {
        let bytes = this.as_str().as_bytes();
        proof {
            lemma_varint_roundtrip(bytes@.len() as u64);
        }
        add_delimited_size(builder, bytes.len())
    }

    fn merge_from(this: &mut std::string::String, input: &mut CodedReader) -> (r: read::Result<()>) {
        match Self::read_new(input) {
            Ok(v) => {
                *this = v;
                Ok(())
            },
            Err(e) => Err(e),
        }
    }

    fn write_to(this: &std::string::String, output: &mut CodedWriter) -> (r: WriteResult) {
        output.write_length_delimited(this.as_str().as_bytes())
    }

    fn is_initialized(this: &std::string::String) -> (r: bool) {
        true
    }

    fn read_new(input: &mut CodedReader) -> (r: read::Result<std::string::String>) {
        let bytes = match input.read_length_delimited() {
            Ok(b) => b,
            Err(e) => return Err(e),
        };
        match string_from_utf8(bytes) {
            Some(s) => Ok(s),
            None => Err(ReadError::InvalidString),
        }
    }

    proof fn lemma_roundtrip(v: Seq<char>, rest: Seq<u8>) {
        let b = encode_utf8(v);
        lemma_length_delimited_read_encoding(b, rest);
        lemma_varint_roundtrip(b.len() as u64);
        encode_utf8_valid_utf8(v);
        encode_utf8_decode_utf8(v);
    }
}


/// A bytes value. This is encoded as a length-delimited series of bytes.
pub struct Bytes<T>(pub T);

impl ValueType for Bytes<Vec<u8>> {
    type Inner = Vec<u8>;
}

impl Value for Bytes<Vec<u8>> {

    open spec fn spec_wire_type() -> WireType {
        WireType::LengthDelimited
    }

    open spec fn encodable(v: Seq<u8>) -> bool {
        v.len() <= i32::MAX
    }

    open spec fn encoding(v: Seq<u8>) -> Seq<u8> {
        varint_bytes(v.len() as u64) + v
    }

    open spec fn decoding(s: Seq<u8>) -> read::Result<(int, Seq<u8>)> {
        length_delimited_read(s)
    }

    fn wire_type() -> (r: WireType) {
        WireType::LengthDelimited
    }

    proof fn lemma_decoding_len(s: Seq<u8>) {
        lemma_length_delimited_read_len(s);
    }

    fn calculate_size(this: &Vec<u8>, builder: LengthBuilder) -> (r: Option<LengthBuilder>) {
        proof {
            lemma_varint_roundtrip(this@.len() as u64);
        }
        add_delimited_size(builder, this.len())
    }

    fn merge_from(this: &mut Vec<u8>, input: &mut CodedReader) -> (r: read::Result<()>) {
        match Self::read_new(input) {
            Ok(v) => {
                *this = v;
                Ok(())
            },
            Err(e) => Err(e),
        }
    }

    fn write_to(this: &Vec<u8>, output: &mut CodedWriter) -> (r: WriteResult) {
        output.write_length_delimited(this.as_slice())
    }

    fn is_initialized(this: &Vec<u8>) -> (r: bool) {
        true
    }

    fn read_new(input: &mut CodedReader) -> (r: read::Result<Vec<u8>>) {
        input.read_length_delimited()
    }

    proof fn lemma_roundtrip(v: Seq<u8>, rest: Seq<u8>) {
        lemma_length_delimited_read_encoding(v, rest);
        lemma_varint_roundtrip(v.len() as u64);
    }
}


/// An enum value. This is encoded as a 32-bit varint value.
pub struct Enum<T>(pub T);

impl<T: crate::Enum> ValueType for Enum<T> {
    type Inner = T;
}

impl<T: crate::Enum> Value for Enum<T> {

    open spec fn spec_wire_type() -> WireType {
        WireType::Varint
    }

    open spec fn encodable(v: i32) -> bool {
        true
    }

    open spec fn encoding(v: i32) -> Seq<u8> {
        Int32::encoding(v)
    }

    open spec fn decoding(s: Seq<u8>) -> read::Result<(int, i32)> {
        Int32::decoding(s)
    }

    fn wire_type() -> (r: WireType) {
        WireType::Varint
    }

    proof fn lemma_decoding_len(s: Seq<u8>) {
        lemma_varint_read_len(s);
    }

    fn calculate_size(this: &T, builder: LengthBuilder) -> (r: Option<LengthBuilder>) {
        Int32::calculate_size(&this.into_i32(), builder)
    }

    fn merge_from(this: &mut T, input: &mut CodedReader) -> (r: read::Result<()>) {
        match Self::read_new(input) {
            Ok(v) => {
                *this = v;
                Ok(())
            },
            Err(e) => Err(e),
        }
    }

    fn write_to(this: &T, output: &mut CodedWriter) -> (r: WriteResult) {
        Int32::write_to(&this.into_i32(), output)
    }

    fn is_initialized(this: &T) -> (r: bool) {
        true
    }

    fn read_new(input: &mut CodedReader) -> (r: read::Result<T>) {
        match Int32::read_new(input) {
            Ok(v) => Ok(T::from_i32(v)),
            Err(e) => Err(e),
        }
    }

    proof fn lemma_roundtrip(v: i32, rest: Seq<u8>) {
        Int32::lemma_roundtrip(v, rest);
    }
}

impl<T: crate::Enum> Packable for Enum<T> {
}


/// The view of an optional length.
pub open spec fn opt_length(o: Option<Length>) -> Option<int> {
    match o {
        Some(l) => Some(l@ as int),
        None => None,
    }
}

/// The tag and the length written before a message of field `num` whose fields are written as
/// `p`; the length can be written only where the size of `p` fits in a length.
pub open spec fn entry_head(num: u32, p: Seq<(bool, Seq<u8>)>) -> Seq<(bool, Seq<u8>)> {
    seq![
        (true, tag_bytes(num, WireType::LengthDelimited)),
        (parts_size(p) is Some, varint_bytes(parts_bytes(p).len() as u64)),
    ]
}

/// The parts a message of field `num` whose fields are written as `p` is written as: its tag,
/// its length and its fields.
pub open spec fn entry_parts(num: u32, p: Seq<(bool, Seq<u8>)>) -> Seq<(bool, Seq<u8>)> {
    entry_head(num, p) + p
}

/// Adds the size of a message of field `num` to the builder, given `len`, the size of the
/// message's fields `p`.
pub(crate) fn add_entry_size(
    b: LengthBuilder,
    num: FieldNumber,
    len: Option<Length>,
    Ghost(p): Ghost<Seq<(bool, Seq<u8>)>>,
) -> (r: Option<LengthBuilder>)
    requires
        opt_length(len) == parts_size(p),
    ensures
        size_added(b@ as int, parts_encodable(entry_parts(num@, p)), parts_bytes(entry_parts(num@, p)).len() as int, r),
{
    let ghost head = entry_head(num@, p);
    proof {
        lemma_parts_bytes_append(head, p);
        lemma_parts_encodable_two(head, p);
        lemma_varint_roundtrip(tag_value(num@, WireType::LengthDelimited) as u64);
        reveal_with_fuel(parts_bytes, 3);
        assert(head.drop_first().drop_first() =~= Seq::<(bool, Seq<u8>)>::empty());
        assert(head[1].0 == (parts_size(p) is Some));
        if parts_size(p) is Some {
            assert forall|i: int| 0 <= i < head.len() implies #[trigger] head[i].0 by {
                assert(head[0].0);
            }
        }
    }
    let len = match len {
        Some(l) => l,
        None => return None,
    };
    proof {
        lemma_varint_roundtrip(len@ as u64);
    }
    let b1 = match b.add_tag(Tag::new(num, WireType::LengthDelimited)) {
        Some(b1) => b1,
        None => return None,
    };
    let b2 = match b1.add_bytes(raw_varint32_size(len.get() as u32)) {
        Some(b2) => b2,
        None => return None,
    };
    b2.add_bytes(len)
}


/// The parts an optional field of value type `V` is written as: nothing where it is not set,
/// else its tag and its value.
pub open spec fn opt_field_parts<V: Value>(num: u32, o: Option<<V::Inner as View>::V>) -> Seq<(bool, Seq<u8>)> {
    match o {
        Some(x) => field_parts::<V>(num, x),
        None => Seq::empty(),
    }
}

/// The view of an optional value of value type `V`.
pub open spec fn opt_inner_view<V: Value>(o: Option<V::Inner>) -> Option<<V::Inner as View>::V> {
    match o {
        Some(x) => Some(x@),
        None => None,
    }
}

/// Adds the size of an optional field of value type `V` to the builder: nothing where it is
/// not set, else its tag and its value.
pub fn add_opt_field<V: Value>(b: LengthBuilder, num: FieldNumber, value: &Option<V::Inner>) -> (r: Option<LengthBuilder>)
    ensures
        size_added(
            b@ as int,
            parts_encodable(opt_field_parts::<V>(num@, opt_inner_view::<V>(*value))),
            parts_bytes(opt_field_parts::<V>(num@, opt_inner_view::<V>(*value))).len() as int,
            r,
        ),
{
    match value {
        Some(x) => {
            proof {
                crate::collections::lemma_field_parts_bytes::<V>(num@, x@);
            }
            b.add_field::<V>(num, x)
        },
        None => {
            proof {
                assert(parts_encodable(Seq::<(bool, Seq<u8>)>::empty()));
                assert(parts_bytes(Seq::<(bool, Seq<u8>)>::empty()).len() == 0);
            }
            Some(b)
        },
    }
}

/// Writes an optional field of value type `V`: nothing where it is not set, else its tag and
/// its value.
pub fn write_opt_field<V: Value>(output: &mut CodedWriter, num: FieldNumber, value: &Option<V::Inner>) -> (r: WriteResult)
    ensures
        (final(output).written(), r) == parts_written(
            old(output).written(),
            old(output).capacity(),
            opt_field_parts::<V>(num@, opt_inner_view::<V>(*value)),
        ),
        final(output).capacity() == old(output).capacity(),
        (*final(final(output).target()))@ == (*final(old(output).target()))@,
{
    match value {
        Some(x) => output.write_field::<V>(num, x),
        None => Ok(()),
    }
}

} // verus!
