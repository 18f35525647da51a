//! Types for reading and writing protobuf coded data: wire types, field numbers,
//! tags, lengths and the variable length integer encoding.

use vstd::prelude::*;

pub mod buffered;
pub mod read;
pub mod stream;
pub mod write;

verus! {

/// The kind of an input or output failure.
#[derive(Clone, Copy, PartialEq, Eq, Structural, Debug)]
pub enum IoErrorKind {
    /// The input ended before the value did.
    UnexpectedEof,
    /// The output had no room left for the value.
    WriteZero,
    /// The stream read from or written to failed, or gave back more bytes than were asked for.
    Other,
}

/// The largest value of a field number.
pub const FIELD_NUMBER_MAX_VALUE: u32 = 536_870_911;

/// The wire type of a protobuf value.
///
/// A wire type is paired with a field number between 1 and 536,870,911 to create a tag,
/// a unique identifier for a field on the wire.
#[derive(Clone, Copy, PartialEq, Eq, Structural, Debug, Hash)]
pub enum WireType {
    /// A value read as a variable length integer.
    Varint,
    /// A 64-bit value encoded as 8 little endian bytes.
    Bit64,
    /// A length delimited value. The length is encoded as a varint.
    LengthDelimited,
    /// A start group tag.
    StartGroup,
    /// An end group tag.
    EndGroup,
    /// A 32-bit value encoded as 4 little endian bytes.
    Bit32,
}

/// The error returned when a byte is not the value of a wire type.
#[derive(Clone, Copy, PartialEq, Eq, Structural, Debug)]
pub struct InvalidWireType;

/// The number of a wire type on the wire.
pub open spec fn wire_type_number(wt: WireType) -> u32 {
    match wt {
        WireType::Varint => 0,
        WireType::Bit64 => 1,
        WireType::LengthDelimited => 2,
        WireType::StartGroup => 3,
        WireType::EndGroup => 4,
        WireType::Bit32 => 5,
    }
}

/// The wire type with the given number, for numbers below 6.
pub open spec fn wire_type_from_number(n: u32) -> WireType {
    if n == 0 {
        WireType::Varint
    } else if n == 1 {
        WireType::Bit64
    } else if n == 2 {
        WireType::LengthDelimited
    } else if n == 3 {
        WireType::StartGroup
    } else if n == 4 {
        WireType::EndGroup
    } else {
        WireType::Bit32
    }
}

/// Whether repeated values of a wire type may be packed.
pub open spec fn wire_type_packable(wt: WireType) -> bool {
    wt == WireType::Varint || wt == WireType::Bit64 || wt == WireType::Bit32
}

impl WireType {
    /// Returns the number of this wire type on the wire.
    pub fn number(self) -> (r: u8)
        ensures
            r == wire_type_number(self),
    {
        match self {
            WireType::Varint => 0,
            WireType::Bit64 => 1,
            WireType::LengthDelimited => 2,
            WireType::StartGroup => 3,
            WireType::EndGroup => 4,
            WireType::Bit32 => 5,
        }
    }

    /// Gets whether a wire type is eligible for repeated field packing.
    /// The packable wire types are Bit32, Bit64, and Varint.
    pub fn is_packable(self) -> (r: bool)
        ensures
            r == wire_type_packable(self),
    {
        match self {
            WireType::Varint | WireType::Bit64 | WireType::Bit32 => true,
            _ => false,
        }
    }

    /// Converts a byte to the wire type with that number.
    pub fn try_from(value: u8) -> (r: Result<WireType, InvalidWireType>)
        ensures
            value < 6 ==> r == Ok::<WireType, InvalidWireType>(wire_type_from_number(value as u32)),
            value >= 6 ==> r == Err::<WireType, InvalidWireType>(InvalidWireType),
    {
        match value {
            0 => Ok(WireType::Varint),
            1 => Ok(WireType::Bit64),
            2 => Ok(WireType::LengthDelimited),
            3 => Ok(WireType::StartGroup),
            4 => Ok(WireType::EndGroup),
            5 => Ok(WireType::Bit32),
            _ => Err(InvalidWireType),
        }
    }
}

/// The number of a wire type gives the wire type back.
pub proof fn lemma_wire_type_number_roundtrip(wt: WireType)
    ensures
        wire_type_number(wt) < 6,
        wire_type_from_number(wire_type_number(wt)) == wt,
{
}

/// Whether a value is a valid field number: not zero and at most 536,870,911.
pub open spec fn valid_field_number(n: u32) -> bool {
    1 <= n <= FIELD_NUMBER_MAX_VALUE
}

/// A protobuf field number. Its value is known to be less than or equal to 536870911 and not 0.
#[derive(Clone, Copy, PartialEq, Eq, Structural, Debug, Hash)]
pub struct FieldNumber(u32);

impl View for FieldNumber {
    type V = u32;

    closed spec fn view(&self) -> u32 {
        self.0
    }
}

impl FieldNumber {
    #[verifier::type_invariant]
    closed spec fn inv(self) -> bool {
        valid_field_number(self.0)
    }

    /// The largest field number.
    pub fn max() -> (r: FieldNumber)
        ensures
            r@ == FIELD_NUMBER_MAX_VALUE,
    {
        FieldNumber(FIELD_NUMBER_MAX_VALUE)
    }

    /// Creates a field number from a value known to be a valid field number.
    pub fn new_unchecked(n: u32) -> (r: FieldNumber)
        requires
            valid_field_number(n),
        ensures
            r@ == n,
    {
        FieldNumber(n)
    }

    /// Creates a field number if the given value is not zero or more than 536870911.
    pub fn new(n: u32) -> (r: Option<FieldNumber>)
        ensures
            valid_field_number(n) ==> r is Some && r->0@ == n,
            !valid_field_number(n) ==> r is None,
    {
        if n != 0 && n <= FIELD_NUMBER_MAX_VALUE {
            Some(FieldNumber(n))
        } else {
            None
        }
    }

    /// Returns the value as a `u32`.
    pub fn get(self) -> (r: u32)
        ensures
            r == self@,
            valid_field_number(r),
    {
        proof {
            use_type_invariant(&self);
        }
        self.0
    }
}

/// The value of the tag made of a field number and a wire type.
pub open spec fn tag_value(field: u32, wt: WireType) -> u32 {
    (field << 3u32) | wire_type_number(wt)
}

/// The field number held in a tag value.
pub open spec fn tag_field(value: u32) -> u32 {
    value >> 3u32
}

/// The wire type number held in a tag value.
pub open spec fn tag_wire_number(value: u32) -> u32 {
    value & 7u32
}

/// Whether a value is a valid tag: its field number is not zero and its wire type exists.
pub open spec fn valid_tag(value: u32) -> bool {
    tag_wire_number(value) < 6 && tag_field(value) != 0
}

proof fn lemma_tag_bits(field: u32, wt: u32)
    requires
        1 <= field <= FIELD_NUMBER_MAX_VALUE,
        wt < 6,
    ensures
        ((field << 3u32) | wt) >> 3u32 == field,
        ((field << 3u32) | wt) & 7u32 == wt,
{
    assert(1 <= field <= 536_870_911 && wt < 6 ==> ((field << 3u32) | wt) >> 3u32 == field && ((
    field << 3u32) | wt) & 7u32 == wt) by (bit_vector);
}

/// The value of the tag made from a field number and a wire type is the field number times
/// eight, plus the wire type's number.
pub proof fn lemma_tag_value(field: u32, wt: WireType)
    requires
        field <= FIELD_NUMBER_MAX_VALUE,
    ensures
        tag_value(field, wt) == field * 8 + wire_type_number(wt),
{
    let w = wire_type_number(wt);
    assert(field <= 536_870_911 && w < 8 ==> (field << 3u32) | w == field * 8 + w) by (bit_vector);
}

/// A tag made from a field number and a wire type holds that field number and that wire type,
/// and is valid.
pub proof fn lemma_tag_parts(field: u32, wt: WireType)
    requires
        valid_field_number(field),
    ensures
        tag_field(tag_value(field, wt)) == field,
        tag_wire_number(tag_value(field, wt)) == wire_type_number(wt),
        wire_type_from_number(tag_wire_number(tag_value(field, wt))) == wt,
        valid_tag(tag_value(field, wt)),
{
    lemma_tag_bits(field, wire_type_number(wt));
}

/// A valid tag is the tag made from its field number and wire type.
pub proof fn lemma_tag_from_parts(value: u32)
    requires
        valid_tag(value),
    ensures
        valid_field_number(tag_field(value)),
        tag_value(tag_field(value), wire_type_from_number(tag_wire_number(value))) == value,
{
    assert((value & 7u32) < 6 ==> ((value >> 3u32) << 3u32) | (value & 7u32) == value) by (
    bit_vector);
    assert(value >> 3u32 <= 536_870_911) by (bit_vector);
}

/// A tag containing a wire type and field number. Its value is known to not be 0,
/// and both field number and wire type are valid values.
#[derive(Clone, Copy, PartialEq, Eq, Structural, Debug, Hash)]
pub struct Tag(u32);

impl View for Tag {
    type V = u32;

    closed spec fn view(&self) -> u32 {
        self.0
    }
}

/// The error returned when an attempt to convert a 32-bit value to a tag fails due to an invalid
/// field number or wire type.
#[derive(Clone, Copy, PartialEq, Eq, Structural, Debug)]
pub struct TryTagFromRawError;

impl Tag {
    #[verifier::type_invariant]
    closed spec fn inv(self) -> bool {
        valid_tag(self.0)
    }

    /// Creates a new tag value with the specified field number and wire type.
    pub fn new(f: FieldNumber, wt: WireType) -> (r: Tag)
        ensures
            r@ == tag_value(f@, wt),
    {
        let n = f.get();
        let w = wt.number() as u32;
        proof {
            lemma_tag_parts(n, wt);
        }
        Tag((n << 3u32) | w)
    }

    /// Creates a new tag if the value has a valid field number and wire type.
    pub fn try_from(n: u32) -> (r: Result<Tag, TryTagFromRawError>)
        ensures
            valid_tag(n) ==> r is Ok && r->Ok_0@ == n,
            !valid_tag(n) ==> r == Err::<Tag, TryTagFromRawError>(TryTagFromRawError),
    {
        if (n & 7u32) < 6 && (n >> 3u32) != 0 {
            Ok(Tag(n))
        } else {
            Err(TryTagFromRawError)
        }
    }

    /// Gets the wire type from this tag.
    pub fn wire_type(self) -> (r: WireType)
        ensures
            wire_type_number(r) == tag_wire_number(self@),
            r == wire_type_from_number(tag_wire_number(self@)),
    {
        proof {
            use_type_invariant(&self);
        }
        match WireType::try_from((self.0 & 7u32) as u8) {
            Ok(wt) => wt,
            Err(_) => WireType::Bit32,
        }
    }

    /// Gets the field number from this tag.
    pub fn field(self) -> (r: FieldNumber)
        ensures
            r@ == tag_field(self@),
    {
        proof {
            use_type_invariant(&self);
            lemma_tag_from_parts(self.0);
        }
        FieldNumber(self.0 >> 3u32)
    }

    /// Returns the value as a `u32`.
    pub fn get(self) -> (r: u32)
        ensures
            r == self@,
            valid_tag(r),
    {
        proof {
            use_type_invariant(&self);
        }
        self.0
    }
}


/// The variable length encoding of a 64-bit value: seven bits per byte, low bits first,
/// with the high bit of every byte but the last set.
pub open spec fn varint_bytes(v: u64) -> Seq<u8>
    decreases v,
{
    if v < 0x80 {
        seq![v as u8]
    } else {
        proof {
            assert(v >= 0x80 ==> v >> 7u64 < v) by (bit_vector);
        }
        seq![((v & 0x7f) | 0x80) as u8] + varint_bytes(v >> 7u64)
    }
}

/// The value of a sequence of varint bytes: the low seven bits of each byte,
/// the first byte holding the lowest bits. Bits past the 64th are dropped.
pub open spec fn varint_value(s: Seq<u8>) -> u64
    decreases s.len(),
{
    if s.len() == 0 {
        0
    } else {
        ((s[0] & 0x7f) as u64) | (varint_value(s.drop_first()) << 7u64)
    }
}

/// The number of bytes in the varint encoding of a value.
pub open spec fn varint_len(v: u64) -> nat
    decreases v,
{
    if v < 0x80 {
        1
    } else {
        proof {
            assert(v >= 0x80 ==> v >> 7u64 < v) by (bit_vector);
        }
        1 + varint_len(v >> 7u64)
    }
}

/// The index of the first byte without its high bit set among the first ten bytes
/// of `s`, searching from index `i`.
pub open spec fn varint_end_from(s: Seq<u8>, i: int) -> Option<int>
    decreases 10 - i,
{
    if i < 0 || i >= 10 || i >= s.len() {
        None
    } else if s[i] < 0x80 {
        Some(i)
    } else {
        varint_end_from(s, i + 1)
    }
}

/// The index of the last byte of the varint at the start of `s`, if it ends within ten bytes.
pub open spec fn varint_end(s: Seq<u8>) -> Option<int> {
    varint_end_from(s, 0)
}

proof fn lemma_shift_step(v: u64)
    ensures
        v >= 0x80 ==> v >> 7u64 < v,
        v < 0x80 ==> ((v as u8) & 0x7f) as u64 | (0u64 << 7u64) == v,
        v < 0x80 ==> (v as u8) < 0x80,
        v >= 0x80 ==> ((((v & 0x7f) | 0x80) as u8) & 0x7f) as u64 | ((v >> 7u64) << 7u64) == v,
        v >= 0x80 ==> (((v & 0x7f) | 0x80) as u8) >= 0x80,
{
    assert(v >= 0x80 ==> v >> 7u64 < v) by (bit_vector);
    assert(v < 0x80 ==> ((v as u8) & 0x7f) as u64 | (0u64 << 7u64) == v) by (bit_vector);
    assert(v < 0x80 ==> (v as u8) < 0x80) by (bit_vector);
    assert(v >= 0x80 ==> ((((v & 0x7f) | 0x80) as u8) & 0x7f) as u64 | ((v >> 7u64) << 7u64) == v)
        by (bit_vector);
    assert(v >= 0x80 ==> (((v & 0x7f) | 0x80) as u8) >= 0x80) by (bit_vector);
}

/// Decoding the varint encoding of a value gives the value back; the encoding is as long as
/// `varint_len` says, at most ten bytes, and only its last byte has the high bit clear.
pub proof fn lemma_varint_roundtrip(v: u64)
    ensures
        varint_value(varint_bytes(v)) == v,
        varint_bytes(v).len() == varint_len(v),
        1 <= varint_len(v) <= 10,
        varint_bytes(v).last() < 0x80,
        forall|i: int| 0 <= i < varint_bytes(v).len() - 1 ==> #[trigger] varint_bytes(v)[i] >= 0x80,
        varint_end(varint_bytes(v)) == Some(varint_len(v) - 1),
    decreases v,
{
    lemma_shift_step(v);
    let s = varint_bytes(v);
    if v < 0x80 {
        assert(s.drop_first() =~= Seq::<u8>::empty());
        assert(varint_value(s.drop_first()) == 0);
    } else {
        let hi = v >> 7u64;
        lemma_varint_roundtrip(hi);
        let rest = varint_bytes(hi);
        assert(s.drop_first() =~= rest);
        assert(hi < 0x8000_0000_0000_0000) by (bit_vector)
            requires hi == v >> 7u64;
        lemma_varint_len_bound(hi);
        assert forall|i: int| 0 <= i < s.len() - 1 implies #[trigger] s[i] >= 0x80 by {
            if i > 0 {
                assert(s[i] == rest[i - 1]);
            }
        }
        lemma_varint_end_shift(s, rest);
    }
}

/// Values below 2^63 take at most nine bytes.
proof fn lemma_varint_len_bound(v: u64)
    requires
        v < 0x8000_0000_0000_0000,
    ensures
        varint_len(v) <= 9,
{
    lemma_varint_len_thresholds(v);
}

/// `varint_len` compared to the powers of 2^7.
pub proof fn lemma_varint_len_thresholds(v: u64)
    ensures
        v < 0x80 ==> varint_len(v) == 1,
        0x80 <= v < 0x4000 ==> varint_len(v) == 2,
        0x4000 <= v < 0x20_0000 ==> varint_len(v) == 3,
        0x20_0000 <= v < 0x1000_0000 ==> varint_len(v) == 4,
        0x1000_0000 <= v < 0x8_0000_0000 ==> varint_len(v) == 5,
        0x8_0000_0000 <= v < 0x400_0000_0000 ==> varint_len(v) == 6,
        0x400_0000_0000 <= v < 0x2_0000_0000_0000 ==> varint_len(v) == 7,
        0x2_0000_0000_0000 <= v < 0x100_0000_0000_0000 ==> varint_len(v) == 8,
        0x100_0000_0000_0000 <= v < 0x8000_0000_0000_0000 ==> varint_len(v) == 9,
        0x8000_0000_0000_0000 <= v ==> varint_len(v) == 10,
    decreases v,
{
    if v >= 0x80 {
        let h = v >> 7u64;
        assert(v >= 0x80 ==> v >> 7u64 < v) by (bit_vector);
        lemma_varint_len_thresholds(h);
        assert(0x80 <= v < 0x4000 ==> h < 0x80) by (bit_vector) requires h == v >> 7u64;
        assert(0x4000 <= v < 0x20_0000 ==> 0x80 <= h < 0x4000) by (bit_vector) requires h == v >> 7u64;
        assert(0x20_0000 <= v < 0x1000_0000 ==> 0x4000 <= h < 0x20_0000) by (bit_vector) requires h == v >> 7u64;
        assert(0x1000_0000 <= v < 0x8_0000_0000 ==> 0x20_0000 <= h < 0x1000_0000) by (bit_vector) requires h == v >> 7u64;
        assert(0x8_0000_0000 <= v < 0x400_0000_0000 ==> 0x1000_0000 <= h < 0x8_0000_0000) by (bit_vector) requires h == v >> 7u64;
        assert(0x400_0000_0000 <= v < 0x2_0000_0000_0000 ==> 0x8_0000_0000 <= h < 0x400_0000_0000) by (bit_vector) requires h == v >> 7u64;
        assert(0x2_0000_0000_0000 <= v < 0x100_0000_0000_0000 ==> 0x400_0000_0000 <= h < 0x2_0000_0000_0000) by (bit_vector) requires h == v >> 7u64;
        assert(0x100_0000_0000_0000 <= v < 0x8000_0000_0000_0000 ==> 0x2_0000_0000_0000 <= h < 0x100_0000_0000_0000) by (bit_vector) requires h == v >> 7u64;
        assert(0x8000_0000_0000_0000 <= v ==> 0x100_0000_0000_0000 <= h < 0x200_0000_0000_0000) by (bit_vector) requires h == v >> 7u64;
        if 0x100_0000_0000_0000 <= h {
            let h2 = h >> 7u64;
            assert(0x100_0000_0000_0000 <= h < 0x200_0000_0000_0000 ==> h2 >= 0x80 && (h2 >> 7u64) >= 0x80
                && ((h2 >> 7u64) >> 7u64) >= 0x80 && (((h2 >> 7u64) >> 7u64) >> 7u64) >= 0x80) by (bit_vector)
                requires h2 == h >> 7u64;
        }
    }
}

proof fn lemma_varint_end_shift(s: Seq<u8>, rest: Seq<u8>)
    requires
        s.len() == rest.len() + 1,
        s.len() <= 10,
        s[0] >= 0x80,
        forall|i: int| 0 <= i < rest.len() ==> s[i + 1] == rest[i],
        rest.len() >= 1,
        rest[rest.len() - 1] < 0x80,
        forall|i: int| 0 <= i < rest.len() - 1 ==> #[trigger] rest[i] >= 0x80,
    ensures
        varint_end(s) == Some(s.len() - 1),
{
    assert forall|j: int| 0 <= j < s.len() - 1 implies #[trigger] s[j] >= 0x80 by {
        if j > 0 {
            assert(s[j] == rest[j - 1]);
        }
    }
    assert(s[s.len() - 1] == rest[rest.len() - 1]);
    lemma_varint_end_all_high(s, 0);
}

proof fn lemma_varint_end_all_high(s: Seq<u8>, i: int)
    requires
        0 <= i < s.len() <= 10,
        s[s.len() - 1] < 0x80,
        forall|j: int| i <= j < s.len() - 1 ==> #[trigger] s[j] >= 0x80,
    ensures
        varint_end_from(s, i) == Some(s.len() - 1),
    decreases s.len() - i,
{
    if i < s.len() - 1 {
        lemma_varint_end_all_high(s, i + 1);
    }
}


proof fn lemma_or_shift_step(a: u64, w: u64, x: u64, k: u64)
    requires
        k <= 56,
    ensures
        a | ((w | (x << k)) << 7u64) == (a | (w << 7u64)) | (x << ((k + 7) as u64)),
{
    assert(k <= 56 ==> a | ((w | (x << k)) << 7u64) == (a | (w << 7u64)) | (x << ((k + 7) as u64)))
        by (bit_vector);
}

/// Decoding one more byte of a varint adds its low seven bits at the next seven bit positions.
pub proof fn lemma_varint_value_take_step(s: Seq<u8>, n: int)
    requires
        0 <= n <= 9,
        n + 1 <= s.len(),
    ensures
        varint_value(s.take(n + 1)) == varint_value(s.take(n)) | (((s[n] & 0x7f) as u64) << ((7
            * n) as u64)),
    decreases n,
{
    let x = (s[n] & 0x7f) as u64;
    if n == 0 {
        assert(s.take(1).drop_first() =~= Seq::<u8>::empty());
        assert(s.take(0) =~= Seq::<u8>::empty());
        assert(x | (0u64 << 7u64) == 0u64 | (x << 0u64)) by (bit_vector);
    } else {
        let t = s.drop_first();
        lemma_varint_value_take_step(t, n - 1);
        assert(s.take(n + 1).drop_first() =~= t.take(n));
        assert(s.take(n).drop_first() =~= t.take(n - 1));
        assert(t[n - 1] == s[n]);
        let a = (s[0] & 0x7f) as u64;
        lemma_or_shift_step(a, varint_value(t.take(n - 1)), x, (7 * (n - 1)) as u64);
    }
}

/// What the end of a varint tells: it lies within the first ten bytes, its byte has the high bit
/// clear, and every byte before it from `i` has the high bit set.
pub proof fn lemma_varint_end_facts(s: Seq<u8>, i: int)
    requires
        0 <= i,
        varint_end_from(s, i) is Some,
    ensures
        ({
            let k = varint_end_from(s, i)->0;
            &&& i <= k < 10
            &&& k < s.len()
            &&& s[k] < 0x80
            &&& forall|j: int| i <= j < k ==> #[trigger] s[j] >= 0x80
        }),
    decreases 10 - i,
{
    if i < 10 && i < s.len() && s[i] >= 0x80 {
        lemma_varint_end_facts(s, i + 1);
    }
}

/// The varint decoding of `s` only depends on its first `n` bytes when the encoding ends before.
pub proof fn lemma_varint_end_prefix(s: Seq<u8>, t: Seq<u8>, i: int)
    requires
        0 <= i,
        varint_end_from(s, i) is Some,
        s.len() <= t.len(),
        forall|j: int| 0 <= j < s.len() ==> s[j] == t[j],
    ensures
        varint_end_from(t, i) == varint_end_from(s, i),
    decreases 10 - i,
{
    if i < 10 && i < s.len() && s[i] >= 0x80 {
        lemma_varint_end_prefix(s, t, i + 1);
    }
}

/// An opaque type that represents the length of a delimited value. This value cannot be negative.
#[derive(Clone, Copy, PartialEq, Eq, Structural, Debug)]
pub struct Length(i32);

impl View for Length {
    type V = i32;

    closed spec fn view(&self) -> i32 {
        self.0
    }
}

impl Length {
    #[verifier::type_invariant]
    closed spec fn inv(self) -> bool {
        self.0 >= 0
    }

    /// Returns the value as an `i32`.
    pub fn get(self) -> (r: i32)
        ensures
            r == self@,
            r >= 0,
    {
        proof {
            use_type_invariant(&self);
        }
        self.0
    }

    /// Makes a new length from a value known not to be negative.
    pub fn new_unchecked(x: i32) -> (r: Length)
        requires
            x >= 0,
        ensures
            r@ == x,
    {
        Length(x)
    }

    /// Makes a new length from the specified `i32`, returning `None` if the value is negative.
    pub fn new(x: i32) -> (r: Option<Length>)
        ensures
            x >= 0 ==> r is Some && r->0@ == x,
            x < 0 ==> r is None,
    {
        if x < 0 {
            None
        } else {
            Some(Length(x))
        }
    }
}

/// Returns the number of bytes in the varint encoding of a 32-bit value.
pub fn raw_varint32_size(value: u32) -> (r: Length)
    ensures
        r@ == varint_len(value as u64),
        1 <= r@ <= 5,
{
    proof {
        lemma_varint_len_thresholds(value as u64);
    }
    if value < 0x80 {
        Length(1)
    } else if value < 0x4000 {
        Length(2)
    } else if value < 0x20_0000 {
        Length(3)
    } else if value < 0x1000_0000 {
        Length(4)
    } else {
        Length(5)
    }
}

/// Returns the number of bytes in the varint encoding of a 64-bit value.
pub fn raw_varint64_size(value: u64) -> (r: Length)
    ensures
        r@ == varint_len(value),
        1 <= r@ <= 10,
{
    proof {
        lemma_varint_len_thresholds(value);
    }
    if value < 0x80 {
        Length(1)
    } else if value < 0x4000 {
        Length(2)
    } else if value < 0x20_0000 {
        Length(3)
    } else if value < 0x1000_0000 {
        Length(4)
    } else if value < 0x8_0000_0000 {
        Length(5)
    } else if value < 0x400_0000_0000 {
        Length(6)
    } else if value < 0x2_0000_0000_0000 {
        Length(7)
    } else if value < 0x100_0000_0000_0000 {
        Length(8)
    } else if value < 0x8000_0000_0000_0000 {
        Length(9)
    } else {
        Length(10)
    }
}

/// An opaque type for building a length for writing to an output.
///
/// This exists to make creating checked lengths easier in generated code.
pub struct LengthBuilder(i32);

impl View for LengthBuilder {
    type V = i32;

    closed spec fn view(&self) -> i32 {
        self.0
    }
}

/// The builder that results from adding `n` bytes to a builder holding `total`:
/// `None` when the sum does not fit in an `i32`.
pub open spec fn builder_sum(total: int, n: int) -> Option<int> {
    if total + n <= i32::MAX {
        Some(total + n)
    } else {
        None
    }
}

impl LengthBuilder {
    #[verifier::type_invariant]
    closed spec fn inv(self) -> bool {
        self.0 >= 0
    }

    /// Creates a new length builder holding zero bytes.
    pub fn new() -> (r: LengthBuilder)
        ensures
            r@ == 0,
    {
        LengthBuilder(0)
    }

    /// Adds an arbitrary number of bytes to the length, returning `None` if the total
    /// does not fit in an `i32`.
    pub fn add_bytes(self, value: Length) -> (r: Option<LengthBuilder>)
        ensures
            r matches Some(b) ==> builder_sum(self@ as int, value@ as int) == Some(b@ as int),
            r is None ==> builder_sum(self@ as int, value@ as int) is None,
            self@ >= 0,
    {
        proof {
            use_type_invariant(&self);
        }
        let v = value.get();
        match self.0.checked_add(v) {
            Some(total) => Some(LengthBuilder(total)),
            None => None,
        }
    }

    /// Adds a tag's size to the length.
    pub fn add_tag(self, tag: Tag) -> (r: Option<LengthBuilder>)
        ensures
            r matches Some(b) ==> builder_sum(self@ as int, varint_len(tag@ as u64) as int) == Some(
                b@ as int,
            ),
            r is None ==> builder_sum(self@ as int, varint_len(tag@ as u64) as int) is None,
    {
        self.add_bytes(raw_varint32_size(tag.get()))
    }

    /// Consumes the builder, returning a `Length` for writing to an output.
    pub fn build(self) -> (r: Length)
        ensures
            r@ == self@,
    {
        proof {
            use_type_invariant(&self);
        }
        Length(self.0)
    }
}

} // verus!
