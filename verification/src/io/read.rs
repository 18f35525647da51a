//! Defines the `CodedReader`, a reader for reading values from a protobuf encoded byte slice.

use vstd::prelude::*;
use vstd::bytes::*;
use vstd::slice::slice_subrange;
use crate::io::{
    IoErrorKind, Length, Tag, WireType, FieldNumber, varint_end, varint_value, valid_tag,
    varint_end_from, lemma_varint_value_take_step, tag_value, wire_type_from_number,
    tag_wire_number, tag_field, lemma_varint_end_facts, varint_bytes, varint_len,
    lemma_varint_roundtrip, lemma_varint_end_prefix,
};

verus! {

/// The error type for `CodedReader`.
#[derive(Clone, Copy, PartialEq, Eq, Structural, Debug)]
pub enum Error {
    /// The input contained a malformed variable length integer.
    MalformedVarint,
    /// The input contained a length delimited value which reported it had a negative size.
    NegativeSize,
    /// The input attempted to recurse too deep into a nested structure.
    RecursionLimitExceeded,
    /// The input contained an invalid tag (zero or the tag had an invalid wire format) or
    /// the tag was invalid in its position.
    InvalidTag(u32),
    /// An error occured while reading from the input: it ended too early.
    IoError(IoErrorKind),
    /// The input contained an invalid UTF8 string.
    InvalidString,
}

/// A result for a `CodedReader` read operation.
pub type Result<T> = core::result::Result<T, Error>;

/// The error a read fails with when the input ends too early.
pub open spec fn eof() -> Error {
    Error::IoError(IoErrorKind::UnexpectedEof)
}

/// The outcome of reading a varint from the front of `s`: the number of bytes it takes
/// and its value, or the error. A varint ends at the first byte without its high bit
/// within ten bytes; if ten bytes are there and none ends it, it is malformed.
pub open spec fn varint_read(s: Seq<u8>) -> Result<(int, u64)> {
    match varint_end(s) {
        Some(k) => Ok((k + 1, varint_value(s.take(k + 1)))),
        None => if s.len() >= 10 {
            Err(Error::MalformedVarint)
        } else {
            Err(eof())
        },
    }
}

/// A varint that is read takes at least one byte and no more than are there.
pub proof fn lemma_varint_read_len(s: Seq<u8>)
    ensures
        varint_read(s) matches Ok((n, v)) ==> 1 <= n <= s.len() && n <= 10,
{
    if varint_end(s) is Some {
        lemma_varint_end_facts(s, 0);
    }
}

/// Reading a varint from the front of its encoding followed by anything gives the value back
/// and takes the whole encoding.
pub proof fn lemma_varint_read_encoding(x: u64, rest: Seq<u8>)
    ensures
        varint_read(varint_bytes(x) + rest) == Ok::<(int, u64), Error>((varint_len(x) as int, x)),
{
    let e = varint_bytes(x);
    let s = e + rest;
    lemma_varint_roundtrip(x);
    lemma_varint_end_prefix(e, s, 0);
    assert(s.take(varint_len(x) as int) =~= e);
}

/// The outcome of reading a length delimited value from the front of `s`: the number of
/// bytes it takes in all and its content.
pub open spec fn length_delimited_read(s: Seq<u8>) -> Result<(int, Seq<u8>)> {
    match varint_read(s) {
        Err(e) => Err(e),
        Ok((n, v)) => {
            let len = (v as u32) as i32;
            if len < 0 {
                Err(Error::NegativeSize)
            } else if n + len > s.len() {
                Err(eof())
            } else {
                Ok((n + len, s.subrange(n, n + len)))
            }
        },
    }
}

/// Reading a length delimited value from the front of its encoding, its length then its
/// bytes, followed by anything gives the bytes back and takes the whole encoding.
pub proof fn lemma_length_delimited_read_encoding(b: Seq<u8>, rest: Seq<u8>)
    requires
        b.len() <= i32::MAX,
    ensures
        length_delimited_read(varint_bytes(b.len() as u64) + b + rest) == Ok::<(int, Seq<u8>), Error>(
            ((varint_len(b.len() as u64) + b.len()) as int, b),
        ),
{
    let n = b.len() as u64;
    let e = varint_bytes(n);
    let s = e + b + rest;
    lemma_varint_read_encoding(n, b + rest);
    assert(s =~= e + (b + rest));
    assert((n as u32) as i32 == n) by (bit_vector)
        requires n <= 0x7fff_ffff;
    lemma_varint_roundtrip(n);
    assert(s.subrange(e.len() as int, (e.len() + b.len()) as int) =~= b);
}

/// A length delimited value that is read takes at least one byte and no more than are there.
pub proof fn lemma_length_delimited_read_len(s: Seq<u8>)
    ensures
        length_delimited_read(s) matches Ok((n, b)) ==> 1 <= n <= s.len() && b.len() < n,
{
    lemma_varint_read_len(s);
}

/// The outcome of reading `k` fixed bytes from the front of `s`.
pub open spec fn fixed_read(s: Seq<u8>, k: int) -> Result<Seq<u8>> {
    if s.len() >= k {
        Ok(s.take(k))
    } else {
        Err(eof())
    }
}

/// The outcome of reading a tag from the front of `s` when `end_group` ends the group being
/// read: the number of bytes read and the tag value, or `None` at the end of the input or at
/// the end group tag.
pub open spec fn tag_read(s: Seq<u8>, end_group: Option<Tag>) -> Result<(int, Option<u32>)> {
    if s.len() == 0 {
        Ok((0, None))
    } else {
        match varint_read(s) {
            Err(e) => Err(e),
            Ok((n, v)) => {
                let t = v as u32;
                if end_group matches Some(g) && g@ == t {
                    Ok((n, None))
                } else if valid_tag(t) {
                    Ok((n, Some(t)))
                } else {
                    Err(Error::InvalidTag(t))
                }
            },
        }
    }
}

/// The number of bytes taken by a value of the given wire type other than a group
/// at the front of `s`, or the error reading it.
pub open spec fn plain_value_read(s: Seq<u8>, wt: WireType) -> Result<int> {
    match wt {
        WireType::Varint => match varint_read(s) {
            Ok((n, _)) => Ok(n),
            Err(e) => Err(e),
        },
        WireType::Bit64 => match fixed_read(s, 8) {
            Ok(_) => Ok(8),
            Err(e) => Err(e),
        },
        WireType::LengthDelimited => match length_delimited_read(s) {
            Ok((n, _)) => Ok(n),
            Err(e) => Err(e),
        },
        WireType::Bit32 => match fixed_read(s, 4) {
            Ok(_) => Ok(4),
            Err(e) => Err(e),
        },
        _ => Ok(0),
    }
}

/// The number of bytes skipped when skipping the value of the field with tag `t` at the
/// front of `s`, or the error. Groups are skipped up to their end tag, one level deeper.
pub open spec fn skip_read(
    s: Seq<u8>,
    t: u32,
    end_group: Option<Tag>,
    depth: nat,
    limit: nat,
) -> Result<int>
    decreases s.len(), 1nat,
{
    let wt = wire_type_from_number(tag_wire_number(t));
    if wt == WireType::StartGroup {
        if depth >= limit {
            Err(Error::RecursionLimitExceeded)
        } else {
            group_rest_read(s, tag_value(tag_field(t), WireType::EndGroup), end_group, depth + 1, limit)
        }
    } else {
        plain_value_read(s, wt)
    }
}

/// The number of bytes read when reading and skipping fields at the front of `s` up to and
/// including the end tag `end`, or the error.
pub open spec fn group_rest_read(
    s: Seq<u8>,
    end: u32,
    end_group: Option<Tag>,
    depth: nat,
    limit: nat,
) -> Result<int>
    decreases s.len(), 0nat,
{
    match tag_read(s, end_group) {
        Err(e) => Err(e),
        Ok((n, None)) => Err(eof()),
        Ok((n, Some(t))) => {
            if t == end {
                Ok(n)
            } else if tag_wire_number(t) == 4 {
                Err(Error::InvalidTag(t))
            } else if n <= 0 || n > s.len() {
                Err(eof())
            } else {
                match skip_read(s.skip(n), t, end_group, depth, limit) {
                    Err(e) => Err(e),
                    Ok(m) => if m < 0 || n + m > s.len() {
                        Err(eof())
                    } else {
                        match group_rest_read(s.skip(n + m), end, end_group, depth, limit) {
                            Err(e) => Err(e),
                            Ok(k) => Ok(n + m + k),
                        }
                    },
                }
            }
        },
    }
}

/// Handling options for unknown fields.
#[derive(Clone, Copy, PartialEq, Eq, Structural, Debug)]
pub enum UnknownFieldHandling {
    /// Stores unknown fields in a message's `UnknownFieldSet`.
    Store,
    /// Skips unknown fields when they're encounted.
    Skip,
}

impl UnknownFieldHandling {
    /// Returns whether the handling is set to skip unknown fields.
    pub fn skip(self) -> (r: bool)
        ensures
            r == (self == UnknownFieldHandling::Skip),
    {
        match self {
            UnknownFieldHandling::Skip => true,
            UnknownFieldHandling::Store => false,
        }
    }

    /// The default handling, which stores unknown fields.
    pub fn default() -> (r: UnknownFieldHandling)
        ensures
            r == UnknownFieldHandling::Store,
    {
        UnknownFieldHandling::Store
    }
}

/// The default recursion limit of a reader.
pub const DEFAULT_RECURSION_LIMIT: usize = 100;

/// A builder used to construct `CodedReader` instances.
#[derive(Clone, Copy, Debug)]
pub struct Builder {
    /// How unknown fields are handled by readers built with this builder.
    pub unknown_fields: UnknownFieldHandling,
    /// How deep readers built with this builder may recurse into nested values.
    pub recursion_limit: usize,
}

impl Builder {
    /// Creates a new builder with the default configuration: unknown fields are stored
    /// and the recursion limit is 100.
    pub fn new() -> (r: Builder)
        ensures
            r.unknown_fields == UnknownFieldHandling::Store,
            r.recursion_limit == DEFAULT_RECURSION_LIMIT,
    {
        Builder { unknown_fields: UnknownFieldHandling::Store, recursion_limit: DEFAULT_RECURSION_LIMIT }
    }

    /// Sets unknown field handling for the reader.
    pub fn unknown_fields(self, value: UnknownFieldHandling) -> (r: Builder)
        ensures
            r.unknown_fields == value,
            r.recursion_limit == self.recursion_limit,
    {
        Builder { unknown_fields: value, recursion_limit: self.recursion_limit }
    }

    /// Sets the recursion limit for a reader.
    pub fn recursion_limit(self, limit: usize) -> (r: Builder)
        ensures
            r.unknown_fields == self.unknown_fields,
            r.recursion_limit == limit,
    {
        Builder { unknown_fields: self.unknown_fields, recursion_limit: limit }
    }

    /// Constructs a `CodedReader` over the slice using this builder's options.
    pub fn with_slice<'a>(&self, inner: &'a [u8]) -> (r: CodedReader<'a>)
        ensures
            r.input() == inner@,
            r.position() == 0,
            r.limit_end() == inner@.len(),
            !r.has_limit(),
            r.last_tag_view() is None,
            r.end_group_view() is None,
            r.depth() == 0,
            r.recursion_limit() == self.recursion_limit,
            r.unknown_field_handling_view() == self.unknown_fields,
    {
        CodedReader {
            data: inner,
            pos: 0,
            limit: inner.len(),
            has_limit: false,
            last_tag: None,
            next_end_group: None,
            depth: 0,
            unknown_fields: self.unknown_fields,
            recursion_limit: self.recursion_limit,
        }
    }
}

/// A protobuf coded input reader that reads from a borrowed slice.
///
/// The reader reads from its position up to its limit: the end of the slice, or the end of
/// the length delimited value being read.
pub struct CodedReader<'a> {
    data: &'a [u8],
    pos: usize,
    limit: usize,
    has_limit: bool,
    last_tag: Option<Tag>,
    next_end_group: Option<Tag>,
    depth: usize,
    unknown_fields: UnknownFieldHandling,
    recursion_limit: usize,
}

/// Whether `new` is `old` with its position moved forward by `n` bytes.
pub open spec fn moved(old: CodedReader, new: CodedReader, n: int) -> bool {
    &&& new.position() == old.position() + n
    &&& same_but_position(old, new)
}

/// Whether `new` is `old` but for its position.
pub open spec fn same_but_position(old: CodedReader, new: CodedReader) -> bool {
    &&& new.last_tag_view() == old.last_tag_view()
    &&& same_state(old, new)
}

/// Whether `new` is `old` with its position moved forward by `n` bytes and `tag` as its
/// last tag.
pub open spec fn moved_with_tag(old: CodedReader, new: CodedReader, n: int, tag: Option<Tag>) -> bool {
    &&& new.position() == old.position() + n
    &&& new.last_tag_view() == tag
    &&& same_state(old, new)
}

/// Whether `new` reads the same input as `old` with the same configuration, in the same
/// group and as deep: what a failed read keeps.
pub open spec fn same_config(old: CodedReader, new: CodedReader) -> bool {
    &&& new.input() == old.input()
    &&& new.end_group_view() == old.end_group_view()
    &&& new.depth() == old.depth()
    &&& new.recursion_limit() == old.recursion_limit()
    &&& new.unknown_field_handling_view() == old.unknown_field_handling_view()
}

/// Whether `new` is `old` having read everything up to its limit.
pub open spec fn read_to_limit(old: CodedReader, new: CodedReader) -> bool {
    &&& new.position() == old.limit_end()
    &&& same_state(old, new)
}

/// Whether a reader skips unknown fields.
pub open spec fn skips(r: CodedReader) -> bool {
    r.unknown_field_handling_view() == UnknownFieldHandling::Skip
}

/// What merging a value read to the limit does, `d` being what reading gives: on success the
/// value is what was read and the reader is at its limit; on an error it is reported and the
/// reader keeps its configuration.
pub open spec fn merge_outcome<V>(d: Result<V>, after: V, old: CodedReader, new: CodedReader, r: Result<()>) -> bool {
    match d {
        Ok(v) => r is Ok && after == v && read_to_limit(old, new),
        Err(e) => r == Err::<(), Error>(e) && same_config(old, new),
    }
}

/// Whether `new` is `old` but for its position and last tag.
pub open spec fn same_state(old: CodedReader, new: CodedReader) -> bool {
    &&& new.input() == old.input()
    &&& new.limit_end() == old.limit_end()
    &&& new.has_limit() == old.has_limit()
    &&& new.end_group_view() == old.end_group_view()
    &&& new.depth() == old.depth()
    &&& new.recursion_limit() == old.recursion_limit()
    &&& new.unknown_field_handling_view() == old.unknown_field_handling_view()
    &&& new.position() <= new.limit_end()
}

impl<'a> CodedReader<'a> {
    #[verifier::type_invariant]
    closed spec fn inv(self) -> bool {
        &&& self.pos <= self.limit <= self.data@.len()
        &&& !self.has_limit ==> self.limit == self.data@.len()
        &&& self.has_limit ==> self.limit - self.pos <= i32::MAX
    }

    /// The whole input slice.
    pub closed spec fn input(&self) -> Seq<u8> {
        self.data@
    }

    /// The index of the next byte to read.
    pub closed spec fn position(&self) -> int {
        self.pos as int
    }

    /// The index where reading stops: the end of the input or of the current length.
    pub closed spec fn limit_end(&self) -> int {
        self.limit as int
    }

    /// Whether a length has been pushed.
    pub closed spec fn has_limit(&self) -> bool {
        self.has_limit
    }

    /// The last tag read.
    pub closed spec fn last_tag_view(&self) -> Option<Tag> {
        self.last_tag
    }

    /// The end group tag that ends the group being read, if any.
    pub closed spec fn end_group_view(&self) -> Option<Tag> {
        self.next_end_group
    }

    /// How deep the reader is in nested values.
    pub closed spec fn depth(&self) -> nat {
        self.depth as nat
    }

    /// How deep the reader may go in nested values.
    pub closed spec fn recursion_limit(&self) -> nat {
        self.recursion_limit as nat
    }

    /// How unknown fields are handled.
    pub closed spec fn unknown_field_handling_view(&self) -> UnknownFieldHandling {
        self.unknown_fields
    }

    /// The bytes that can still be read before the limit.
    pub open spec fn available(&self) -> Seq<u8> {
        self.input().subrange(self.position(), self.limit_end())
    }

    /// Creates a new `CodedReader` over the borrowed slice in the default configuration.
    pub fn with_slice(inner: &'a [u8]) -> (r: CodedReader<'a>)
        ensures
            r.input() == inner@,
            r.position() == 0,
            r.limit_end() == inner@.len(),
            !r.has_limit(),
            r.last_tag_view() is None,
            r.end_group_view() is None,
            r.depth() == 0,
            r.recursion_limit() == DEFAULT_RECURSION_LIMIT,
            r.unknown_field_handling_view() == UnknownFieldHandling::Store,
    {
        Builder::new().with_slice(inner)
    }

    /// Consumes the reader, returning the rest of the slice after its position.
    pub fn into_inner(self) -> (r: &'a [u8])
        ensures
            r@ == self.input().subrange(self.position(), self.input().len() as int),
    {
        proof {
            use_type_invariant(&self);
        }
        slice_subrange(self.data, self.pos, self.data.len())
    }

    /// The index of the next byte to read.
    pub fn pos(&self) -> (r: usize)
        ensures
            r == self.position(),
    {
        self.pos
    }

    /// The number of bytes that can still be read before the limit.
    pub fn remaining(&self) -> (r: usize)
        ensures
            r == self.available().len(),
            r == self.limit_end() - self.position(),
            0 <= self.position() <= self.limit_end() <= self.input().len(),
            !self.has_limit() ==> self.limit_end() == self.input().len(),
            self.has_limit() ==> self.limit_end() - self.position() <= i32::MAX,
    {
        proof {
            use_type_invariant(self);
        }
        self.limit - self.pos
    }

    /// Gets handling options for unknown fields read with this reader.
    pub fn unknown_field_handling(&self) -> (r: UnknownFieldHandling)
        ensures
            r == self.unknown_field_handling_view(),
    {
        self.unknown_fields
    }

    /// Returns whether unknown fields should be skipped instead of stored.
    pub fn skip_unknown_fields(&self) -> (r: bool)
        ensures
            r == (self.unknown_field_handling_view() == UnknownFieldHandling::Skip),
    {
        self.unknown_fields.skip()
    }

    /// Gets the last tag read by the reader.
    pub fn last_tag(&self) -> (r: Option<Tag>)
        ensures
            r == self.last_tag_view(),
    {
        self.last_tag
    }

    /// Sets the last tag read by the reader.
    pub fn set_last_tag(&mut self, tag: Option<Tag>)
        ensures
            final(self).last_tag_view() == tag,
            final(self).input() == old(self).input(),
            final(self).position() == old(self).position(),
            final(self).limit_end() == old(self).limit_end(),
            final(self).has_limit() == old(self).has_limit(),
            final(self).end_group_view() == old(self).end_group_view(),
            final(self).depth() == old(self).depth(),
            final(self).recursion_limit() == old(self).recursion_limit(),
            final(self).unknown_field_handling_view() == old(self).unknown_field_handling_view(),
    {
        proof {
            use_type_invariant(&*self);
        }
        self.last_tag = tag;
    }

    /// Returns whether the reader has reached its limit: no byte is left to read.
    pub fn reached_limit(&self) -> (r: bool)
        ensures
            r == (self.position() == self.limit_end()),
            r == (self.available().len() == 0),
            0 <= self.position() <= self.limit_end() <= self.input().len(),
            !self.has_limit() ==> self.limit_end() == self.input().len(),
    {
        proof {
            use_type_invariant(self);
        }
        self.pos == self.limit
    }

    /// Reads a 64-bit varint from the input.
    pub fn read_varint64(&mut self) -> (r: Result<u64>)
        ensures
            match varint_read(old(self).available()) {
                Ok((n, v)) => r == Ok::<u64, Error>(v) && moved(*old(self), *final(self), n),
                Err(e) => r == Err::<u64, Error>(e) && *final(self) == *old(self)
                    && same_but_position(*old(self), *final(self)),
            },
    {
        proof {
            use_type_invariant(&*self);
        }
        let start = self.pos;
        let end = self.limit;
        let ghost avail = self.available();
        let mut result: u64 = 0;
        let mut i: usize = 0;
        while i < 10
            invariant
                start == old(self).pos,
                end == old(self).limit,
                *self == *old(self),
                avail == old(self).available(),
                start <= end <= self.data@.len(),
                self.pos <= self.limit <= self.data@.len(),
                !self.has_limit ==> self.limit == self.data@.len(),
                self.has_limit ==> self.limit - self.pos <= i32::MAX,
                avail == self.data@.subrange(start as int, end as int),
                i <= 10,
                i <= avail.len(),
                result == varint_value(avail.take(i as int)),
                varint_end_from(avail, 0) == varint_end_from(avail, i as int),
            decreases 10 - i,
        {
            if i >= end - start {
                return Err(Error::IoError(IoErrorKind::UnexpectedEof));
            }
            let b = self.data[start + i];
            assert(b == avail[i as int]);
            proof {
                lemma_varint_value_take_step(avail, i as int);
            }
            result = result | (((b & 0x7f) as u64) << ((7 * i) as u64));
            if b < 0x80 {
                self.pos = start + i + 1;
                return Ok(result);
            }
            i = i + 1;
        }
        Err(Error::MalformedVarint)
    }

    /// Reads a 32-bit varint from the input. This reads the same bytes as `read_varint64`,
    /// discarding the top 32 bits of the value.
    pub fn read_varint32(&mut self) -> (r: Result<u32>)
        ensures
            match varint_read(old(self).available()) {
                Ok((n, v)) => r == Ok::<u32, Error>(v as u32) && moved(*old(self), *final(self), n),
                Err(e) => r == Err::<u32, Error>(e) && *final(self) == *old(self)
                    && same_but_position(*old(self), *final(self)),
            },
    {
        match self.read_varint64() {
            Ok(v) => Ok(v as u32),
            Err(e) => Err(e),
        }
    }

    fn take_slice(&mut self, k: usize) -> (r: &'a [u8])
        requires
            k <= old(self).available().len(),
        ensures
            r@ == old(self).available().take(k as int),
            moved(*old(self), *final(self), k as int),
    {
        proof {
            use_type_invariant(&*self);
        }
        let start = self.pos;
        let s = slice_subrange(self.data, start, start + k);
        self.pos = start + k;
        assert(s@ =~= old(self).available().take(k as int));
        s
    }

    /// Reads a 4-byte little endian value.
    pub fn read_bit32(&mut self) -> (r: Result<u32>)
        ensures
            match fixed_read(old(self).available(), 4) {
                Ok(b) => r == Ok::<u32, Error>(spec_u32_from_le_bytes(b)) && moved(
                    *old(self),
                    *final(self),
                    4,
                ),
                Err(e) => r == Err::<u32, Error>(e) && *final(self) == *old(self)
                    && same_but_position(*old(self), *final(self)),
            },
    {
        proof {
            use_type_invariant(&*self);
        }
        if self.remaining() >= 4 {
            let s = self.take_slice(4);
            Ok(u32_from_le_bytes(s))
        } else {
            Err(Error::IoError(IoErrorKind::UnexpectedEof))
        }
    }

    /// Reads an 8-byte little endian value.
    pub fn read_bit64(&mut self) -> (r: Result<u64>)
        ensures
            match fixed_read(old(self).available(), 8) {
                Ok(b) => r == Ok::<u64, Error>(spec_u64_from_le_bytes(b)) && moved(
                    *old(self),
                    *final(self),
                    8,
                ),
                Err(e) => r == Err::<u64, Error>(e) && *final(self) == *old(self)
                    && same_but_position(*old(self), *final(self)),
            },
    {
        proof {
            use_type_invariant(&*self);
        }
        if self.remaining() >= 8 {
            let s = self.take_slice(8);
            Ok(u64_from_le_bytes(s))
        } else {
            Err(Error::IoError(IoErrorKind::UnexpectedEof))
        }
    }

    /// Reads a length delimited string of bytes: a varint length, then that many bytes.
    /// On an error the reader may have moved past the length.
    pub fn read_length_delimited(&mut self) -> (r: Result<Vec<u8>>)
        ensures
            match length_delimited_read(old(self).available()) {
                Ok((n, b)) => r matches Ok(v) && v@ == b && moved(*old(self), *final(self), n),
                Err(e) => r == Err::<Vec<u8>, Error>(e) && same_but_position(
                    *old(self),
                    *final(self),
                ),
            },
    {
        proof {
            use_type_invariant(&*self);
        }
        let ghost avail = self.available();
        let len = match self.read_varint32() {
            Ok(v) => v as i32,
            Err(e) => return Err(e),
        };
        if len < 0 {
            return Err(Error::NegativeSize);
        }
        let len = len as usize;
        let ghost n0 = varint_read(avail)->Ok_0.0;
        proof {
            use_type_invariant(&*self);
            assert(varint_read(avail) is Ok);
            lemma_varint_read_len(avail);
            assert(self.position() == old(self).position() + n0);
            assert(self.input() == old(self).input());
            assert(self.limit_end() == old(self).limit_end());
            assert(self.available() =~= avail.skip(n0));
        }
        if len > self.remaining() {
            return Err(Error::IoError(IoErrorKind::UnexpectedEof));
        }
        let ghost mid = self.available();
        let s = self.take_slice(len);
        let mut v: Vec<u8> = Vec::with_capacity(len);
        let mut i: usize = 0;
        while i < len
            invariant
                i <= len,
                len == s@.len(),
                v@ == s@.take(i as int),
            decreases len - i,
        {
            v.push(s[i]);
            i = i + 1;
            assert(v@ =~= s@.take(i as int));
        }
        proof {
            assert(v@ =~= avail.subrange(n0, n0 + len));
        }
        Ok(v)
    }
}

impl<'a> CodedReader<'a> {
    /// Reads the raw value of a field's tag from the input, returning `None` at the limit.
    /// The value is not checked, nor compared with the end of the group being read, and the
    /// last tag is kept.
    pub fn read_field(&mut self) -> (r: Result<Option<u32>>)
        ensures
            old(self).available().len() == 0 ==> r == Ok::<Option<u32>, Error>(None) && *final(self)
                == *old(self),
            old(self).available().len() != 0 ==> match varint_read(old(self).available()) {
                Ok((n, v)) => r == Ok::<Option<u32>, Error>(Some(v as u32)) && moved(
                    *old(self),
                    *final(self),
                    n,
                ),
                Err(e) => r == Err::<Option<u32>, Error>(e) && *final(self) == *old(self),
            },
    {
        if self.reached_limit() {
            return Ok(None);
        }
        match self.read_varint32() {
            Ok(v) => Ok(Some(v)),
            Err(e) => Err(e),
        }
    }

    /// Reads a field tag from the input, returning `None` at the end of the input or of the
    /// group being read. The tag read becomes the last tag.
    pub fn read_tag(&mut self) -> (r: Result<Option<Tag>>)
        ensures
            match tag_read(old(self).available(), old(self).end_group_view()) {
                Ok((n, None)) => r == Ok::<Option<Tag>, Error>(None) && moved_with_tag(
                    *old(self),
                    *final(self),
                    n,
                    None,
                ),
                Ok((n, Some(t))) => r matches Ok(Some(tag)) && tag@ == t && moved_with_tag(
                    *old(self),
                    *final(self),
                    n,
                    Some(tag),
                ),
                Err(e) => r == Err::<Option<Tag>, Error>(e) && same_but_position(
                    *old(self),
                    *final(self),
                ),
            },
    {
        proof {
            use_type_invariant(&*self);
        }
        if self.pos == self.limit {
            self.last_tag = None;
            return Ok(None);
        }
        let v = match self.read_varint32() {
            Ok(v) => v,
            Err(e) => return Err(e),
        };
        proof {
            use_type_invariant(&*self);
        }
        if let Some(g) = self.next_end_group {
            if g.get() == v {
                self.last_tag = None;
                return Ok(None);
            }
        }
        match Tag::try_from(v) {
            Ok(t) => {
                self.last_tag = Some(t);
                Ok(Some(t))
            },
            Err(_) => Err(Error::InvalidTag(v)),
        }
    }

    fn skip_length_delimited(&mut self) -> (r: Result<()>)
        ensures
            match length_delimited_read(old(self).available()) {
                Ok((n, _)) => r == Ok::<(), Error>(()) && moved(*old(self), *final(self), n),
                Err(e) => r == Err::<(), Error>(e) && same_but_position(*old(self), *final(self)),
            },
    {
        proof {
            use_type_invariant(&*self);
        }
        let ghost avail = self.available();
        let len = match self.read_varint32() {
            Ok(v) => v as i32,
            Err(e) => return Err(e),
        };
        if len < 0 {
            return Err(Error::NegativeSize);
        }
        let len = len as usize;
        let ghost n0 = varint_read(avail)->Ok_0.0;
        proof {
            use_type_invariant(&*self);
            lemma_varint_read_len(avail);
            assert(self.available() =~= avail.skip(n0));
        }
        if len > self.remaining() {
            return Err(Error::IoError(IoErrorKind::UnexpectedEof));
        }
        self.take_slice(len);
        Ok(())
    }

    /// Skips the value of the last field read from the input. If no tag has been read, this
    /// does nothing. A group is skipped up to its end tag, which becomes the last tag.
    pub fn skip(&mut self) -> (r: Result<()>)
        ensures
            skipped(*old(self), *final(self), r),
        decreases old(self).available().len(), 1nat,
    {
        proof {
            use_type_invariant(&*self);
        }
        proof {
            lemma_varint_read_len(self.available());
        }
        let tag = match self.last_tag {
            None => return Ok(()),
            Some(t) => t,
        };
        match tag.wire_type() {
            WireType::Varint => match self.read_varint64() {
                Ok(_) => Ok(()),
                Err(e) => Err(e),
            },
            WireType::Bit64 => match self.read_bit64() {
                Ok(_) => Ok(()),
                Err(e) => Err(e),
            },
            WireType::LengthDelimited => self.skip_length_delimited(),
            WireType::StartGroup => {
                if self.depth >= self.recursion_limit {
                    return Err(Error::RecursionLimitExceeded);
                }
                let end = Tag::new(tag.field(), WireType::EndGroup);
                self.depth = self.depth + 1;
                let r = self.skip_group_rest(end.get());
                proof {
                    use_type_invariant(&*self);
                }
                self.depth = self.depth - 1;
                r
            },
            WireType::EndGroup => Ok(()),
            WireType::Bit32 => match self.read_bit32() {
                Ok(_) => Ok(()),
                Err(e) => Err(e),
            },
        }
    }

    fn skip_group_rest(&mut self, end: u32) -> (r: Result<()>)
        ensures
            match group_rest_read(
                old(self).available(),
                end,
                old(self).end_group_view(),
                old(self).depth(),
                old(self).recursion_limit(),
            ) {
                Ok(n) => {
                    &&& r == Ok::<(), Error>(())
                    &&& n >= 0
                    &&& final(self).position() == old(self).position() + n
                    &&& same_state(*old(self), *final(self))
                    &&& final(self).last_tag_view() matches Some(e) && e@ == end
                },
                Err(e) => r == Err::<(), Error>(e) && same_state(*old(self), *final(self)),
            },
        decreases old(self).available().len(), 0nat,
    {
        proof {
            use_type_invariant(&*self);
        }
        let ghost start = *self;
        let ghost total = group_rest_read(
            old(self).available(),
            end,
            old(self).end_group_view(),
            old(self).depth(),
            old(self).recursion_limit(),
        );
        loop
            invariant
                same_state(start, *self),
                start == *old(self),
                total == group_rest_read(
                    start.available(),
                    end,
                    start.end_group_view(),
                    start.depth(),
                    start.recursion_limit(),
                ),
                start.position() <= self.position(),
                total == match group_rest_read(
                    self.available(),
                    end,
                    start.end_group_view(),
                    start.depth(),
                    start.recursion_limit(),
                ) {
                    Ok(k) => Ok(self.position() - start.position() + k),
                    Err(e) => Err(e),
                },
            decreases self.available().len(),
        {
            proof {
                use_type_invariant(&*self);
            }
            let ghost cur = *self;
            let ghost s = self.available();
            let t = match self.read_tag() {
                Ok(Some(t)) => t,
                Ok(None) => {
                    return Err(Error::IoError(IoErrorKind::UnexpectedEof));
                },
                Err(e) => return Err(e),
            };
            let ghost n = self.position() - cur.position();
            proof {
                use_type_invariant(&*self);
                if s.len() != 0 {
                    lemma_varint_read_len(s);
                }
                assert(self.available() =~= s.skip(n));
            }
            if t.get() == end {
                return Ok(());
            }
            if (t.get() & 7u32) == 4 {
                return Err(Error::InvalidTag(t.get()));
            }
            let ghost mid = *self;
            match self.skip() {
                Ok(()) => {},
                Err(e) => return Err(e),
            }
            proof {
                use_type_invariant(&*self);
                let m = self.position() - mid.position();
                assert(self.available() =~= s.skip(n + m));
            }
        }
    }

    /// Reads a length value from the input: an `i32` varint.
    /// A negative length is refused with `NegativeSize`.
    pub fn read_length(&mut self) -> (r: Result<Length>)
        ensures
            match varint_read(old(self).available()) {
                Ok((n, v)) => {
                    &&& moved(*old(self), *final(self), n)
                    &&& ((v as u32) as i32) < 0 ==> r == Err::<Length, Error>(Error::NegativeSize)
                    &&& ((v as u32) as i32) >= 0 ==> (r matches Ok(l) && l@ == (v as u32) as i32)
                },
                Err(e) => r == Err::<Length, Error>(e) && *final(self) == *old(self)
                    && same_but_position(*old(self), *final(self)),
            },
    {
        let v = match self.read_varint32() {
            Ok(v) => v as i32,
            Err(e) => return Err(e),
        };
        match Length::new(v) {
            Some(l) => Ok(l),
            None => Err(Error::NegativeSize),
        }
    }

    /// Pushes a new length to the reader, limiting the data read from the input to that many
    /// bytes from the current position. Returns the old length to give back to `pop_length`
    /// once the new one has been read: what was left of the old limit past the new one, or
    /// `None` if there was no limit. A length that reaches past the current limit is refused
    /// with an end of input error.
    pub fn push_length(&mut self, length: Length) -> (r: Result<Option<Length>>)
        ensures
            length@ > old(self).available().len() ==> r == Err::<Option<Length>, Error>(eof())
                && *final(self) == *old(self),
            length@ <= old(self).available().len() ==> {
                &&& r matches Ok(o)
                &&& old(self).has_limit() ==> (o matches Some(l) && l@ == old(self).available().len()
                    - length@)
                &&& !old(self).has_limit() ==> o is None
                &&& final(self).limit_end() == old(self).position() + length@
                &&& final(self).has_limit()
                &&& final(self).position() == old(self).position()
                &&& final(self).input() == old(self).input()
                &&& final(self).last_tag_view() == old(self).last_tag_view()
                &&& final(self).end_group_view() == old(self).end_group_view()
                &&& final(self).depth() == old(self).depth()
                &&& final(self).recursion_limit() == old(self).recursion_limit()
                &&& final(self).unknown_field_handling_view() == old(self).unknown_field_handling_view()
            },
    {
        proof {
            use_type_invariant(&*self);
        }
        let len = length.get() as usize;
        let rem = self.limit - self.pos;
        if len > rem {
            return Err(Error::IoError(IoErrorKind::UnexpectedEof));
        }
        let old = if self.has_limit {
            Some(Length((rem - len) as i32))
        } else {
            None
        };
        *self = CodedReader { limit: self.pos + len, has_limit: true, ..*self };
        Ok(old)
    }

    /// Returns an old length to the reader: the limit becomes that many bytes past the current
    /// position (never past the end of the input), or the end of the input for `None`.
    pub fn pop_length(&mut self, previous: Option<Length>)
        ensures
            previous matches Some(l) ==> final(self).has_limit() && final(self).limit_end()
                == clamped_end(old(self).position() + l@, old(self).input().len() as int),
            previous is None ==> !final(self).has_limit() && final(self).limit_end() == old(self).input().len(),
            final(self).position() == old(self).position(),
            final(self).input() == old(self).input(),
            final(self).last_tag_view() == old(self).last_tag_view(),
            final(self).end_group_view() == old(self).end_group_view(),
            final(self).depth() == old(self).depth(),
            final(self).recursion_limit() == old(self).recursion_limit(),
            final(self).unknown_field_handling_view() == old(self).unknown_field_handling_view(),
    {
        proof {
            use_type_invariant(&*self);
        }
        match previous {
            Some(l) => {
                let o = l.get() as usize;
                let end = self.data.len();
                let new_limit = if o <= end - self.pos {
                    self.pos + o
                } else {
                    end
                };
                *self = CodedReader { limit: new_limit, has_limit: true, ..*self };
            },
            None => {
                *self = CodedReader { limit: self.data.len(), has_limit: false, ..*self };
            },
        }
    }

    /// Reads a length from the input and pushes it, returning the old length to give back to
    /// `pop_length`. If an error occurs while reading the length, no length is pushed: a
    /// negative length is refused with `NegativeSize` and a length reaching past the current
    /// limit with an end of input error, after the length has been read.
    pub fn read_and_push_length(&mut self) -> (r: Result<Option<Length>>)
        ensures
            match varint_read(old(self).available()) {
                Ok((n, v)) => {
                    let len = (v as u32) as i32;
                    let left = old(self).available().len() - n;
                    &&& len < 0 ==> r == Err::<Option<Length>, Error>(Error::NegativeSize)
                        && moved(*old(self), *final(self), n)
                    &&& 0 <= len && len > left ==> r == Err::<Option<Length>, Error>(eof())
                        && moved(*old(self), *final(self), n)
                    &&& 0 <= len && len <= left ==> {
                        &&& r matches Ok(o)
                        &&& old(self).has_limit() ==> (o matches Some(l) && l@ == left - len)
                        &&& !old(self).has_limit() ==> o is None
                        &&& final(self).position() == old(self).position() + n
                        &&& final(self).limit_end() == old(self).position() + n + len
                        &&& final(self).has_limit()
                        &&& final(self).input() == old(self).input()
                        &&& final(self).last_tag_view() == old(self).last_tag_view()
                        &&& final(self).end_group_view() == old(self).end_group_view()
                        &&& final(self).depth() == old(self).depth()
                        &&& final(self).recursion_limit() == old(self).recursion_limit()
                        &&& final(self).unknown_field_handling_view() == old(self).unknown_field_handling_view()
                    }
                },
                Err(e) => r == Err::<Option<Length>, Error>(e) && *final(self) == *old(self),
            },
    {
        proof {
            lemma_varint_read_len(self.available());
        }
        let length = match self.read_length() {
            Ok(l) => l,
            Err(e) => return Err(e),
        };
        proof {
            use_type_invariant(&*self);
            let ghost n = varint_read(old(self).available())->Ok_0.0;
            assert(self.available() =~= old(self).available().skip(n));
        }
        self.push_length(length)
    }

    /// Counts one more level of nesting, refusing it with `RecursionLimitExceeded` when the
    /// reader is already at its recursion limit.
    pub fn increment_recursion_count(&mut self) -> (r: Result<()>)
        ensures
            old(self).depth() >= old(self).recursion_limit() ==> r == Err::<(), Error>(
                Error::RecursionLimitExceeded,
            ) && *final(self) == *old(self),
            old(self).depth() < old(self).recursion_limit() ==> r == Ok::<(), Error>(()) && final(self).depth() == old(self).depth() + 1,
            final(self).position() == old(self).position(),
            final(self).last_tag_view() == old(self).last_tag_view(),
            final(self).recursion_limit() == old(self).recursion_limit(),
            final(self).input() == old(self).input(),
            final(self).limit_end() == old(self).limit_end(),
            final(self).has_limit() == old(self).has_limit(),
            final(self).end_group_view() == old(self).end_group_view(),
            final(self).unknown_field_handling_view() == old(self).unknown_field_handling_view(),
    {
        proof {
            use_type_invariant(&*self);
        }
        if self.depth >= self.recursion_limit {
            Err(Error::RecursionLimitExceeded)
        } else {
            self.depth = self.depth + 1;
            Ok(())
        }
    }

    /// Counts one level of nesting less.
    pub fn decrement_recursion_count(&mut self)
        requires
            old(self).depth() >= 1,
        ensures
            final(self).depth() == old(self).depth() - 1,
            same_but_depth(*old(self), *final(self)),
    {
        proof {
            use_type_invariant(&*self);
        }
        self.depth = self.depth - 1;
    }
}

/// `end`, unless it is past `len`.
pub open spec fn clamped_end(end: int, len: int) -> int {
    if end <= len {
        end
    } else {
        len
    }
}

/// A limit pushed and popped again once the reader has read up to it gives back the limit the
/// reader had before the push: `pushed` is the reader after `push_length(length)` returned
/// `previous`, `at_limit` the reader once it has read up to that limit, and `popped` the
/// reader after `pop_length(previous)`.
pub proof fn lemma_push_pop_restores(
    before: CodedReader,
    pushed: CodedReader,
    at_limit: CodedReader,
    popped: CodedReader,
    length: Length,
    previous: Option<Length>,
)
    requires
        0 <= before.position() <= before.limit_end() <= before.input().len(),
        !before.has_limit() ==> before.limit_end() == before.input().len(),
        0 <= length@ <= before.available().len(),
        before.has_limit() ==> (previous matches Some(l) && l@ == before.available().len() - length@),
        !before.has_limit() ==> previous is None,
        pushed.limit_end() == before.position() + length@,
        pushed.input() == before.input(),
        at_limit.input() == pushed.input(),
        at_limit.position() == pushed.limit_end(),
        previous matches Some(l) ==> popped.has_limit() && popped.limit_end() == clamped_end(
            at_limit.position() + l@,
            at_limit.input().len() as int,
        ),
        previous is None ==> !popped.has_limit() && popped.limit_end() == at_limit.input().len(),
        popped.position() == at_limit.position(),
    ensures
        popped.has_limit() == before.has_limit(),
        popped.limit_end() == before.limit_end(),
        popped.position() == before.position() + length@,
{
}

/// What skipping the value of the last field read does: nothing where no tag was read; else the
/// value is skipped as `skip_read` says, and a skipped group's end tag becomes the last tag.
pub open spec fn skipped(old: CodedReader, new: CodedReader, r: Result<()>) -> bool {
    match old.last_tag_view() {
        None => r == Ok::<(), Error>(()) && new == old,
        Some(t) => match skip_read(
            old.available(),
            t@,
            old.end_group_view(),
            old.depth(),
            old.recursion_limit(),
        ) {
            Ok(n) => {
                &&& r == Ok::<(), Error>(())
                &&& n >= 0
                &&& new.position() == old.position() + n
                &&& same_state(old, new)
                &&& tag_wire_number(t@) != 3 ==> new.last_tag_view() == old.last_tag_view()
                &&& tag_wire_number(t@) == 3 ==> (new.last_tag_view() matches Some(
                    e,
                ) && e@ == tag_value(tag_field(t@), WireType::EndGroup))
            },
            Err(e) => r == Err::<(), Error>(e) && same_state(old, new),
        },
    }
}

/// Whether `new` is `old` but for its depth.
pub open spec fn same_but_depth(old: CodedReader, new: CodedReader) -> bool {
    &&& new.position() == old.position()
    &&& new.last_tag_view() == old.last_tag_view()
    &&& new.recursion_limit() == old.recursion_limit()
    &&& new.input() == old.input()
    &&& new.limit_end() == old.limit_end()
    &&& new.has_limit() == old.has_limit()
    &&& new.end_group_view() == old.end_group_view()
    &&& new.unknown_field_handling_view() == old.unknown_field_handling_view()
}

} // verus!
