//! Defines the `CodedWriter`, a writer for writing protobuf encoded values to a slice.

use vstd::prelude::*;
use vstd::bytes::*;
use vstd::slice::slice_subrange;
use crate::io::{
    IoErrorKind, Length, Tag, raw_varint32_size, raw_varint64_size, varint_bytes, varint_len,
    lemma_varint_roundtrip,
};

verus! {

/// The error type for `CodedWriter`.
#[derive(Clone, Copy, PartialEq, Eq, Structural, Debug)]
pub enum Error {
    /// A value was provided that was too large to write to an output.
    ValueTooLarge,
    /// An error occured while writing data to the output: the slice had no room left.
    IoError(IoErrorKind),
}

/// The result of a `CodedWriter` write operation.
pub type Result = core::result::Result<(), Error>;

/// The error a write fails with when the output has no room for it.
pub open spec fn no_room() -> Error {
    Error::IoError(IoErrorKind::WriteZero)
}

/// A protobuf coded output writer that writes to a borrowed slice, front to back.
pub struct CodedWriter<'a> {
    out: &'a mut [u8],
    pos: usize,
}

/// The effect of appending `bytes` to an output that has written `before` and can hold
/// `cap` bytes in all: the bytes are written if they fit, and nothing is written otherwise.
pub open spec fn appended(
    before: Seq<u8>,
    cap: nat,
    bytes: Seq<u8>,
    after: Seq<u8>,
    r: Result,
) -> bool {
    if before.len() + bytes.len() <= cap {
        r == Ok::<(), Error>(()) && after == before + bytes
    } else {
        r == Err::<(), Error>(no_room()) && after == before
    }
}

/// What writing `parts` one after the other does to an output that has written `before` and
/// can hold `cap` bytes in all: the bytes written in the end and the result. A part is a flag
/// saying whether it can be written at all and its bytes. Writing stops at the first part that
/// cannot be written (`ValueTooLarge`) or that does not fit (no room).
pub open spec fn parts_written(before: Seq<u8>, cap: nat, parts: Seq<(bool, Seq<u8>)>) -> (Seq<u8>, Result)
    decreases parts.len(),
{
    if parts.len() == 0 {
        (before, Ok(()))
    } else if !parts[0].0 {
        (before, Err(Error::ValueTooLarge))
    } else if before.len() + parts[0].1.len() > cap {
        (before, Err(no_room()))
    } else {
        parts_written(before + parts[0].1, cap, parts.drop_first())
    }
}

/// The bytes of `parts` one after the other.
pub open spec fn parts_bytes(parts: Seq<(bool, Seq<u8>)>) -> Seq<u8>
    decreases parts.len(),
{
    if parts.len() == 0 {
        Seq::empty()
    } else {
        parts[0].1 + parts_bytes(parts.drop_first())
    }
}

/// Whether every one of `parts` can be written.
pub open spec fn parts_encodable(parts: Seq<(bool, Seq<u8>)>) -> bool {
    forall|i: int| 0 <= i < parts.len() ==> #[trigger] parts[i].0
}

/// Writing parts that can all be written and fit together appends all their bytes.
pub proof fn lemma_parts_written_fit(before: Seq<u8>, cap: nat, parts: Seq<(bool, Seq<u8>)>)
    requires
        parts_encodable(parts),
        before.len() + parts_bytes(parts).len() <= cap,
    ensures
        parts_written(before, cap, parts) == (before + parts_bytes(parts), Ok::<(), Error>(())),
    decreases parts.len(),
{
    if parts.len() > 0 {
        let rest = parts.drop_first();
        assert(parts_encodable(rest)) by {
            assert forall|i: int| 0 <= i < rest.len() implies #[trigger] rest[i].0 by {
                assert(rest[i] == parts[i + 1]);
            }
        }
        assert(parts[0].0);
        lemma_parts_written_fit(before + parts[0].1, cap, rest);
        assert(before + parts[0].1 + parts_bytes(rest) =~= before + parts_bytes(parts));
    } else {
        assert(before + parts_bytes(parts) =~= before);
    }
}

/// Writing two runs of parts one after the other is writing the run of all of them.
pub proof fn lemma_parts_written_append(
    before: Seq<u8>,
    cap: nat,
    p1: Seq<(bool, Seq<u8>)>,
    p2: Seq<(bool, Seq<u8>)>,
)
    ensures
        parts_written(before, cap, p1 + p2) == if parts_written(before, cap, p1).1 is Ok {
            parts_written(parts_written(before, cap, p1).0, cap, p2)
        } else {
            parts_written(before, cap, p1)
        },
    decreases p1.len(),
{
    if p1.len() == 0 {
        assert(p1 + p2 =~= p2);
    } else {
        assert((p1 + p2)[0] == p1[0]);
        assert((p1 + p2).drop_first() =~= p1.drop_first() + p2);
        if p1[0].0 && before.len() + p1[0].1.len() <= cap {
            lemma_parts_written_append(before + p1[0].1, cap, p1.drop_first(), p2);
        }
    }
}

/// The bytes of two runs of parts are the bytes of the first run, then those of the second.
pub proof fn lemma_parts_bytes_append(p1: Seq<(bool, Seq<u8>)>, p2: Seq<(bool, Seq<u8>)>)
    ensures
        parts_bytes(p1 + p2) == parts_bytes(p1) + parts_bytes(p2),
    decreases p1.len(),
{
    if p1.len() == 0 {
        assert(p1 + p2 =~= p2);
        assert(parts_bytes(p1) + parts_bytes(p2) =~= parts_bytes(p2));
    } else {
        assert((p1 + p2).drop_first() =~= p1.drop_first() + p2);
        lemma_parts_bytes_append(p1.drop_first(), p2);
        assert(parts_bytes(p1 + p2) =~= parts_bytes(p1) + parts_bytes(p2));
    }
}

/// A successful result is the one successful result.
pub proof fn lemma_ok_unit(r: Result)
    requires
        r is Ok,
    ensures
        r == Ok::<(), Error>(()),
{
    match r {
        Ok(u) => {
            assert(u == ());
        },
        Err(_) => {},
    }
}

/// Whether `new` holds the same bytes as `old` from index `n` on: the bytes of a writer's slice
/// past what it has written are left as they were.
pub open spec fn kept_past(old: Seq<u8>, new: Seq<u8>, n: int) -> bool {
    new.len() == old.len() && new.skip(n) == old.skip(n)
}

/// Keeping the bytes past `n1`, then those past `n2 >= n1`, keeps the bytes past `n2`.
proof fn lemma_kept_past_chain(a: Seq<u8>, b: Seq<u8>, c: Seq<u8>, n1: int, n2: int)
    requires
        kept_past(a, b, n1),
        kept_past(b, c, n2),
        0 <= n1 <= n2 <= a.len(),
    ensures
        kept_past(a, c, n2),
{
    assert forall|k: int| 0 <= k < c.len() - n2 implies #[trigger] c.skip(n2)[k] == a.skip(n2)[k] by {
        assert(c.skip(n2)[k] == b.skip(n2)[k]);
        assert(b.skip(n1)[k + n2 - n1] == a.skip(n1)[k + n2 - n1]);
    }
    assert(c.skip(n2) =~= a.skip(n2));
}

impl<'a> CodedWriter<'a> {
    #[verifier::type_invariant]
    closed spec fn inv(self) -> bool {
        self.pos <= self.out@.len()
    }

    /// The bytes written so far.
    pub closed spec fn written(&self) -> Seq<u8> {
        self.out@.take(self.pos as int)
    }

    /// The slice the writer writes to.
    pub closed spec fn target(&self) -> &'a mut [u8] {
        self.out
    }

    /// The number of bytes the output can hold in all.
    pub closed spec fn capacity(&self) -> nat {
        self.out@.len()
    }

    /// Creates a coded writer that writes to the specified slice.
    pub fn with_slice(s: &'a mut [u8]) -> (r: CodedWriter<'a>)
        ensures
            r.written() == Seq::<u8>::empty(),
            r.capacity() == old(s)@.len(),
            r.target()@ == old(s)@,
            (*final(r.target()))@ == final(s)@,
    {
        CodedWriter { out: s, pos: 0 }
    }

    /// The number of bytes written so far.
    pub fn position(&self) -> (r: usize)
        ensures
            r == self.written().len(),
    {
        proof {
            use_type_invariant(self);
        }
        self.pos
    }

    /// The number of bytes that can still be written.
    pub fn remaining(&self) -> (r: usize)
        ensures
            r == self.capacity() - self.written().len(),
    {
        proof {
            use_type_invariant(self);
        }
        self.out.len() - self.pos
    }

    /// Returns the bytes written so far, the front of the slice the writer was created with.
    pub fn written_bytes(&self) -> (r: &[u8])
        ensures
            r@ == self.written(),
    {
        proof {
            use_type_invariant(self);
        }
        let all: &[u8] = &*self.out;
        let r = slice_subrange(all, 0, self.pos);
        assert(r@ =~= self.written());
        r
    }

    /// Returns the part of the slice that has not been written. The slice the writer was
    /// created with ends up holding the bytes written, then what that part ends up holding.
    pub fn into_inner(self) -> (r: &'a mut [u8])
        ensures
            r@.len() == self.capacity() - self.written().len(),
            r@ == self.target()@.skip(self.written().len() as int),
            (*final(self.target()))@ == self.written() + final(r)@,
    {
        proof {
            use_type_invariant(&self);
        }
        let CodedWriter { out, pos } = self;
        let (_, rest) = out.split_at_mut(pos);
        rest
    }

    fn put_byte(&mut self, b: u8)
        requires
            old(self).written().len() < old(self).capacity(),
        ensures
            final(self).written() == old(self).written().push(b),
            final(self).capacity() == old(self).capacity(),
            (*final(final(self).target()))@ == (*final(old(self).target()))@,
            kept_past(old(self).target()@, final(self).target()@, final(self).written().len() as int),
    {
        proof {
            use_type_invariant(&*self);
        }
        let p = self.pos;
        self.out[p] = b;
        self.pos = p + 1;
        assert(self.out@.take(self.pos as int) =~= old(self).out@.take(p as int).push(b));
        assert(self.out@.skip(self.pos as int) =~= old(self).out@.skip(self.pos as int));
    }

    fn put_varint(&mut self, value: u64)
        requires
            old(self).written().len() + varint_len(value) <= old(self).capacity(),
        ensures
            final(self).written() == old(self).written() + varint_bytes(value),
            final(self).capacity() == old(self).capacity(),
            (*final(final(self).target()))@ == (*final(old(self).target()))@,
            kept_past(old(self).target()@, final(self).target()@, final(self).written().len() as int),
    {
        proof {
            lemma_varint_roundtrip(value);
        }
        let mut v = value;
        loop
            invariant
                self.written() + varint_bytes(v) == old(self).written() + varint_bytes(value),
                self.written().len() + varint_bytes(v).len() <= self.capacity(),
                self.capacity() == old(self).capacity(),
                (*final(self.target()))@ == (*final(old(self).target()))@,
                kept_past(old(self).target()@, self.target()@, self.written().len() as int),
                old(self).written().len() <= self.written().len(),
            decreases v,
        {
            proof {
                lemma_varint_roundtrip(v);
            }
            if v < 0x80 {
                let ghost w = self.written();
                let ghost t = self.target()@;
                self.put_byte(v as u8);
                assert(self.written() =~= w + varint_bytes(v));
                proof {
                    use_type_invariant(&*self);
                    lemma_kept_past_chain(old(self).target()@, t, self.target()@, w.len() as int, self.written().len() as int);
                }
                return;
            } else {
                let b = ((v & 0x7f) | 0x80) as u8;
                let ghost w = self.written();
                let ghost vb = varint_bytes(v);
                let ghost t = self.target()@;
                self.put_byte(b);
                proof {
                    use_type_invariant(&*self);
                    lemma_kept_past_chain(old(self).target()@, t, self.target()@, w.len() as int, self.written().len() as int);
                }
                assert(v >= 0x80 ==> v >> 7u64 < v) by (bit_vector);
                assert(vb =~= seq![b] + varint_bytes(v >> 7u64));
                assert(self.written() + varint_bytes(v >> 7u64) =~= w + vb);
                v = v >> 7u64;
            }
        }
    }

    fn put_slice(&mut self, bytes: &[u8])
        requires
            old(self).written().len() + bytes@.len() <= old(self).capacity(),
        ensures
            final(self).written() == old(self).written() + bytes@,
            final(self).capacity() == old(self).capacity(),
            (*final(final(self).target()))@ == (*final(old(self).target()))@,
            kept_past(old(self).target()@, final(self).target()@, final(self).written().len() as int),
    {
        let mut i: usize = 0;
        while i < bytes.len()
            invariant
                i <= bytes@.len(),
                self.written() == old(self).written() + bytes@.take(i as int),
                old(self).written().len() + bytes@.len() <= self.capacity(),
                self.capacity() == old(self).capacity(),
                (*final(self.target()))@ == (*final(old(self).target()))@,
                kept_past(old(self).target()@, self.target()@, self.written().len() as int),
            decreases bytes@.len() - i,
        {
            let ghost w = self.written();
            let ghost t = self.target()@;
            self.put_byte(bytes[i]);
            proof {
                use_type_invariant(&*self);
                lemma_kept_past_chain(old(self).target()@, t, self.target()@, w.len() as int, self.written().len() as int);
            }
            i = i + 1;
            assert(self.written() =~= old(self).written() + bytes@.take(i as int));
        }
        assert(bytes@.take(bytes@.len() as int) =~= bytes@);
    }

    /// Writes a 32-bit varint value to the output.
    pub fn write_varint32(&mut self, value: u32) -> (r: Result)
        ensures
            appended(
                old(self).written(),
                old(self).capacity(),
                varint_bytes(value as u64),
                final(self).written(),
                r,
            ),
            final(self).capacity() == old(self).capacity(),
            (*final(final(self).target()))@ == (*final(old(self).target()))@,
            kept_past(old(self).target()@, final(self).target()@, final(self).written().len() as int),
            r is Err ==> final(self).target()@ == old(self).target()@,
    {
        self.write_varint64(value as u64)
    }

    /// Writes a 64-bit varint value to the output.
    pub fn write_varint64(&mut self, value: u64) -> (r: Result)
        ensures
            appended(
                old(self).written(),
                old(self).capacity(),
                varint_bytes(value),
                final(self).written(),
                r,
            ),
            final(self).capacity() == old(self).capacity(),
            (*final(final(self).target()))@ == (*final(old(self).target()))@,
            kept_past(old(self).target()@, final(self).target()@, final(self).written().len() as int),
            r is Err ==> final(self).target()@ == old(self).target()@,
    {
        proof {
            lemma_varint_roundtrip(value);
        }
        let size = raw_varint64_size(value).get() as usize;
        if self.remaining() >= size {
            self.put_varint(value);
            Ok(())
        } else {
            Err(Error::IoError(IoErrorKind::WriteZero))
        }
    }

    /// Writes a little-endian 4-byte integer to the output.
    pub fn write_bit32(&mut self, value: u32) -> (r: Result)
        ensures
            appended(
                old(self).written(),
                old(self).capacity(),
                spec_u32_to_le_bytes(value),
                final(self).written(),
                r,
            ),
            final(self).capacity() == old(self).capacity(),
            (*final(final(self).target()))@ == (*final(old(self).target()))@,
            kept_past(old(self).target()@, final(self).target()@, final(self).written().len() as int),
            r is Err ==> final(self).target()@ == old(self).target()@,
    {
        proof {
            lemma_auto_spec_u32_to_from_le_bytes();
        }
        if self.remaining() >= 4 {
            let bytes = u32_to_le_bytes(value);
            self.put_slice(bytes.as_slice());
            Ok(())
        } else {
            Err(Error::IoError(IoErrorKind::WriteZero))
        }
    }

    /// Writes a little-endian 8-byte integer to the output.
    pub fn write_bit64(&mut self, value: u64) -> (r: Result)
        ensures
            appended(
                old(self).written(),
                old(self).capacity(),
                spec_u64_to_le_bytes(value),
                final(self).written(),
                r,
            ),
            final(self).capacity() == old(self).capacity(),
            (*final(final(self).target()))@ == (*final(old(self).target()))@,
            kept_past(old(self).target()@, final(self).target()@, final(self).written().len() as int),
            r is Err ==> final(self).target()@ == old(self).target()@,
    {
        proof {
            lemma_auto_spec_u64_to_from_le_bytes();
        }
        if self.remaining() >= 8 {
            let bytes = u64_to_le_bytes(value);
            self.put_slice(bytes.as_slice());
            Ok(())
        } else {
            Err(Error::IoError(IoErrorKind::WriteZero))
        }
    }

    /// Writes a length delimited string of bytes to the output: its length as a varint,
    /// then the bytes. A string longer than `i32::MAX` is refused with `ValueTooLarge`.
    pub fn write_length_delimited(&mut self, value: &[u8]) -> (r: Result)
        ensures
            value@.len() > i32::MAX ==> r == Err::<(), Error>(Error::ValueTooLarge)
                && final(self).written() == old(self).written(),
            value@.len() <= i32::MAX ==> appended(
                old(self).written(),
                old(self).capacity(),
                varint_bytes(value@.len() as u64) + value@,
                final(self).written(),
                r,
            ),
            final(self).capacity() == old(self).capacity(),
            (*final(final(self).target()))@ == (*final(old(self).target()))@,
            kept_past(old(self).target()@, final(self).target()@, final(self).written().len() as int),
            r is Err ==> final(self).target()@ == old(self).target()@,
    {
        let n = value.len();
        if n > 0x7fff_ffff {
            return Err(Error::ValueTooLarge);
        }
        proof {
            lemma_varint_roundtrip(n as u64);
        }
        let len_len = raw_varint32_size(n as u32).get() as usize;
        let rem = self.remaining();
        if rem >= len_len && rem - len_len >= n {
            self.put_varint(n as u64);
            let ghost w = self.written();
            let ghost t = self.target()@;
            self.put_slice(value);
            proof {
                use_type_invariant(&*self);
                lemma_kept_past_chain(old(self).target()@, t, self.target()@, w.len() as int, self.written().len() as int);
            }
            assert(old(self).written() + (varint_bytes(n as u64) + value@) =~= old(self).written()
                + varint_bytes(n as u64) + value@);
            Ok(())
        } else {
            Err(Error::IoError(IoErrorKind::WriteZero))
        }
    }

    /// Writes a length to the output as a varint.
    pub fn write_length(&mut self, length: Length) -> (r: Result)
        ensures
            appended(
                old(self).written(),
                old(self).capacity(),
                varint_bytes(length@ as u64),
                final(self).written(),
                r,
            ),
            final(self).capacity() == old(self).capacity(),
            (*final(final(self).target()))@ == (*final(old(self).target()))@,
            kept_past(old(self).target()@, final(self).target()@, final(self).written().len() as int),
            r is Err ==> final(self).target()@ == old(self).target()@,
    {
        let n = length.get();
        self.write_varint32(n as u32)
    }

    /// Writes a tag to the output as a varint.
    pub fn write_tag(&mut self, tag: Tag) -> (r: Result)
        ensures
            appended(
                old(self).written(),
                old(self).capacity(),
                varint_bytes(tag@ as u64),
                final(self).written(),
                r,
            ),
            final(self).capacity() == old(self).capacity(),
            (*final(final(self).target()))@ == (*final(old(self).target()))@,
            kept_past(old(self).target()@, final(self).target()@, final(self).written().len() as int),
            r is Err ==> final(self).target()@ == old(self).target()@,
    {
        self.write_varint32(tag.get())
    }
}

} // verus!
