//! Coded input and output over streams: a reader that buffers what a `Read` stream gives it,
//! and a writer that buffers bytes on their way to a `Write` stream.
//!
//! What a stream gives back is not known in advance, so the contracts here speak of the bytes
//! received so far: every byte read comes from them, in order, and reading only adds to them.

use vstd::prelude::*;
use crate::io::{IoErrorKind, varint_end_from, lemma_varint_end_facts, lemma_varint_end_prefix};
use crate::io::read::{CodedReader, Error, Result, eof, varint_read};
use crate::io::stream::{Read, Write};
use crate::io::write::{Error as WriteError, Result as WriteResult};

verus! {

/// The buffer capacity of a stream reader created without one.
pub const DEFAULT_BUF_SIZE: usize = 8192;

/// The error a stream's failure is reported with.
pub open spec fn stream_failed() -> Error {
    Error::IoError(IoErrorKind::Other)
}

/// A reader over a `Read` stream, which buffers what the stream gives back.
pub struct StreamReader<R: Read> {
    input: R,
    data: Vec<u8>,
    start: usize,
    cap: usize,
    received: Ghost<Seq<u8>>,
}

impl<R: Read> StreamReader<R> {
    /// Whether the reader is well formed: its buffer fits in its capacity and holds the last
    /// bytes received.
    pub closed spec fn wf(&self) -> bool {
        &&& self.start <= self.data@.len() <= self.cap
        &&& self.cap > 0
        &&& self.data@.skip(self.start as int).len() <= self.received@.len()
        &&& self.data@.skip(self.start as int) == self.received@.skip(
            self.received@.len() - self.data@.skip(self.start as int).len(),
        )
    }

    /// All the bytes the stream has given back so far.
    pub closed spec fn received(&self) -> Seq<u8> {
        self.received@
    }

    /// The bytes received but not read yet.
    pub closed spec fn buffered(&self) -> Seq<u8> {
        self.data@.skip(self.start as int)
    }

    /// The number of bytes read so far: the received bytes before the buffered ones.
    pub open spec fn position(&self) -> int {
        self.received().len() - self.buffered().len()
    }

    /// The number of bytes the buffer holds at most.
    pub closed spec fn capacity(&self) -> nat {
        self.cap as nat
    }

    /// Creates a reader over the stream whose buffer holds up to `capacity` bytes; a capacity
    /// of zero reads the stream one byte at a time.
    pub fn with_capacity(capacity: usize, input: R) -> (r: StreamReader<R>)
        ensures
            r.wf(),
            r.received() == Seq::<u8>::empty(),
            r.buffered() == Seq::<u8>::empty(),
            r.capacity() == if capacity == 0 { 1 } else { capacity as nat },
    {
        let cap = if capacity == 0 { 1 } else { capacity };
        let r = StreamReader { input, data: Vec::new(), start: 0, cap, received: Ghost(Seq::empty()) };
        assert(r.data@.skip(0) =~= Seq::<u8>::empty());
        r
    }

    /// Creates a reader over the stream with the default buffer capacity.
    pub fn with_stream(input: R) -> (r: StreamReader<R>)
        ensures
            r.wf(),
            r.received() == Seq::<u8>::empty(),
            r.buffered() == Seq::<u8>::empty(),
            r.capacity() == DEFAULT_BUF_SIZE,
    {
        StreamReader::with_capacity(DEFAULT_BUF_SIZE, input)
    }

    /// Returns the stream, dropping what is buffered.
    pub fn into_inner(self) -> R {
        self.input
    }

    /// Moves the buffered bytes to the front of the buffer.
    fn compact(&mut self)
        requires
            old(self).wf(),
        ensures
            final(self).wf(),
            final(self).start == 0,
            final(self).buffered() == old(self).buffered(),
            final(self).received() == old(self).received(),
            final(self).capacity() == old(self).capacity(),
    {
        if self.start == 0 {
            return;
        }
        let mut kept: Vec<u8> = Vec::new();
        let mut i: usize = self.start;
        while i < self.data.len()
            invariant
                self.start <= i <= self.data@.len(),
                kept@ == self.data@.subrange(self.start as int, i as int),
            decreases self.data@.len() - i,
        {
            kept.push(self.data[i]);
            i = i + 1;
            assert(kept@ =~= self.data@.subrange(self.start as int, i as int));
        }
        let ghost b = self.buffered();
        assert(kept@ =~= b);
        self.data = kept;
        self.start = 0;
        assert(self.data@.skip(0) =~= b);
    }

    /// Reads from the stream into the free part of the buffer, once. On `Ok(n)` the stream gave
    /// back `n` bytes, at most the free room of the buffer, and they are added to the buffered
    /// and the received bytes; the position does not move. A stream that fails, or claims more
    /// bytes than it was asked for, leaves the buffer as it was.
    pub fn read_buffer_partial(&mut self) -> (r: Result<usize>)
        requires
            old(self).wf(),
        ensures
            final(self).wf(),
            final(self).capacity() == old(self).capacity(),
            final(self).position() == old(self).position(),
            match r {
                Ok(n) => {
                    &&& n <= old(self).capacity() - old(self).buffered().len()
                    &&& final(self).buffered().len() == old(self).buffered().len() + n
                    &&& final(self).buffered().take(old(self).buffered().len() as int) == old(self).buffered()
                    &&& final(self).received() == old(self).received() + final(self).buffered().skip(
                        old(self).buffered().len() as int,
                    )
                },
                Err(e) => e == stream_failed() && final(self).buffered() == old(self).buffered()
                    && final(self).received() == old(self).received(),
            },
    {
        self.compact();
        let free = self.cap - self.data.len();
        let mut tmp: Vec<u8> = vec![0u8; free];
        let res = self.input.read(tmp.as_mut_slice());
        let n = match res {
            Ok(n) => n,
            Err(_) => return Err(Error::IoError(IoErrorKind::Other)),
        };
        if n > free || n > tmp.len() {
            return Err(Error::IoError(IoErrorKind::Other));
        }
        let ghost old_data = self.data@;
        let ghost got = tmp@.take(n as int);
        let ghost old_received = self.received@;
        let mut i: usize = 0;
        while i < n
            invariant
                i <= n <= tmp@.len(),
                self.data@ == old_data + tmp@.take(i as int),
                self.start == 0,
                self.cap == old(self).cap,
                self.received@ == old_received,
            decreases n - i,
        {
            self.data.push(tmp[i]);
            i = i + 1;
            assert(self.data@ =~= old_data + tmp@.take(i as int));
        }
        let ghost new_received = old_received + got;
        proof {
            assert(self.data@.skip(0) =~= old_data + got);
            assert(old_data.skip(0) =~= old_data);
            assert(new_received.skip(new_received.len() - (old_data + got).len()) =~= old_data + got);
        }
        self.received = Ghost(new_received);
        proof {
            assert(self.buffered() =~= old_data + got);
            assert(self.buffered().skip(old_data.len() as int) =~= got);
            assert(self.buffered().take(old_data.len() as int) =~= old_data);
        }
        Ok(n)
    }

    /// Takes `k` buffered bytes, moving the position past them.
    fn take_buffered(&mut self, k: usize)
        requires
            old(self).wf(),
            k <= old(self).buffered().len(),
        ensures
            final(self).wf(),
            final(self).buffered() == old(self).buffered().skip(k as int),
            final(self).received() == old(self).received(),
            final(self).capacity() == old(self).capacity(),
    {
        let ghost b = self.data@.skip(self.start as int);
        let ghost rc = self.received@;
        self.start = self.start + k;
        proof {
            assert(self.buffered() =~= b.skip(k as int));
            assert(rc.skip(rc.len() - b.skip(k as int).len()) =~= b.skip(k as int));
        }
    }

    /// Reads from the stream until at least `n` bytes are buffered, or fails with the end of
    /// input error if the stream ends first. `n` must fit in the buffer.
    pub fn fill(&mut self, n: usize) -> (r: Result<()>)
        requires
            old(self).wf(),
            n <= old(self).capacity(),
        ensures
            final(self).wf(),
            final(self).capacity() == old(self).capacity(),
            final(self).position() == old(self).position(),
            final(self).received().take(old(self).received().len() as int) == old(self).received(),
            final(self).received().len() >= old(self).received().len(),
            r is Ok ==> final(self).buffered().len() >= n,
            r matches Err(e) ==> e == eof() || e == stream_failed(),
    {
        loop
            invariant
                self.wf(),
                n <= self.capacity(),
                self.capacity() == old(self).capacity(),
                self.position() == old(self).position(),
                self.received().take(old(self).received().len() as int) == old(self).received(),
                self.received().len() >= old(self).received().len(),
            decreases self.capacity() - self.buffered().len(),
        {
            if self.data.len() - self.start >= n {
                return Ok(());
            }
            let ghost before = self.received();
            match self.read_buffer_partial() {
                Ok(0) => return Err(Error::IoError(IoErrorKind::UnexpectedEof)),
                Ok(_) => {},
                Err(e) => return Err(e),
            }
            proof {
                assert(self.received().take(before.len() as int) =~= before);
                assert(self.received().take(old(self).received().len() as int) =~= before.take(
                    old(self).received().len() as int,
                ));
                
            }
        }
    }

    /// The buffered bytes, read from the front of them with a `CodedReader`, say.
    pub fn buffered_bytes(&self) -> (r: &[u8])
        requires
            self.wf(),
        ensures
            r@ == self.buffered(),
    {
        vstd::slice::slice_subrange(self.data.as_slice(), self.start, self.data.len())
    }

    /// Moves the position past `k` buffered bytes.
    pub fn consume(&mut self, k: usize)
        requires
            old(self).wf(),
            k <= old(self).buffered().len(),
        ensures
            final(self).wf(),
            final(self).buffered() == old(self).buffered().skip(k as int),
            final(self).position() == old(self).position() + k,
            final(self).received() == old(self).received(),
            final(self).capacity() == old(self).capacity(),
    {
        self.take_buffered(k);
    }

    /// Fills `out` with the next bytes of the input, reading from the stream as the buffer runs
    /// out. On success the position moves past them and they are the received bytes at the old
    /// position; the end of the stream before `out` is full is the end of input error. Whatever
    /// happens, bytes are only ever added to those received.
    pub fn read_exact(&mut self, out: &mut [u8]) -> (r: Result<()>)
        requires
            old(self).wf(),
        ensures
            final(self).wf(),
            final(self).capacity() == old(self).capacity(),
            final(self).received().take(old(self).received().len() as int) == old(self).received(),
            final(self).received().len() >= old(self).received().len(),
            final(out)@.len() == old(out)@.len(),
            r is Ok ==> final(self).position() == old(self).position() + old(out)@.len()
                && final(out)@ == final(self).received().subrange(old(self).position(), final(self).position()),
            r matches Err(e) ==> e == eof() || e == stream_failed(),
    {
        let ghost p0 = self.position();
        let mut i: usize = 0;
        while i < out.len()
            invariant
                self.wf(),
                i <= out@.len(),
                out@.len() == old(out)@.len(),
                self.capacity() == old(self).capacity(),
                self.received().take(old(self).received().len() as int) == old(self).received(),
                self.received().len() >= old(self).received().len(),
                p0 == old(self).position(),
                0 <= p0,
                self.position() == p0 + i,
                0 <= p0 + i <= self.received().len(),
                out@.take(i as int) == self.received().subrange(p0, p0 + i),
            decreases out@.len() - i, self.capacity() - self.buffered().len(),
        {
            if self.start == self.data.len() {
                let ghost before = self.received();
                match self.read_buffer_partial() {
                    Ok(0) => return Err(Error::IoError(IoErrorKind::UnexpectedEof)),
                    Ok(_) => {},
                    Err(e) => return Err(e),
                }
                proof {
                    assert(self.received().take(before.len() as int) =~= before);
                    assert(self.received().take(old(self).received().len() as int) =~= before.take(
                        old(self).received().len() as int,
                    ));
                    assert forall|k: int| 0 <= k < i implies #[trigger] self.received().subrange(p0, p0 + i)[k]
                        == before.subrange(p0, p0 + i)[k] by {
                        assert(self.received()[p0 + k] == self.received().take(before.len() as int)[p0 + k]);
                    }
                    assert(self.received().subrange(p0, p0 + i) =~= before.subrange(p0, p0 + i));
                }
            } else {
                let ghost rc = self.received();
                let ghost prev = out@;
                let b = self.data[self.start];
                proof {
                    assert(b == self.buffered()[0]);
                    assert(self.buffered() == rc.skip(p0 + i));
                    assert(b == rc[p0 + i]);
                }
                out[i] = b;
                self.take_buffered(1);
                proof {
                    assert forall|k: int| 0 <= k < i + 1 implies #[trigger] out@.take(i + 1)[k] == rc.subrange(p0, p0 + i + 1)[k] by {
                        if k < i {
                            assert(out@[k] == prev[k]);
                            assert(prev.take(i as int)[k] == rc.subrange(p0, p0 + i)[k]);
                        }
                    }
                    assert(out@.take(i + 1) =~= rc.subrange(p0, p0 + i + 1));
                }
                i = i + 1;
            }
        }
        proof {
            assert(out@.take(i as int) =~= out@);
        }
        Ok(())
    }

    /// Moves the position past the next `n` bytes of the input, reading them from the stream as
    /// the buffer runs out; the end of the stream before them is the end of input error.
    pub fn skip(&mut self, n: usize) -> (r: Result<()>)
        requires
            old(self).wf(),
        ensures
            final(self).wf(),
            final(self).capacity() == old(self).capacity(),
            final(self).received().take(old(self).received().len() as int) == old(self).received(),
            final(self).received().len() >= old(self).received().len(),
            r is Ok ==> final(self).position() == old(self).position() + n,
            r matches Err(e) ==> e == eof() || e == stream_failed(),
    {
        let mut sink: Vec<u8> = vec![0u8; n];
        self.read_exact(sink.as_mut_slice())
    }

    /// Reads a varint from the input, byte by byte: on success it is the varint at the old
    /// position of the received bytes, and the position moves past it. Ten bytes without an
    /// end are refused with `MalformedVarint`.
    pub fn read_varint64(&mut self) -> (r: Result<u64>)
        requires
            old(self).wf(),
        ensures
            final(self).wf(),
            final(self).capacity() == old(self).capacity(),
            final(self).received().take(old(self).received().len() as int) == old(self).received(),
            final(self).received().len() >= old(self).received().len(),
            r matches Ok(v) ==> varint_read(final(self).received().skip(old(self).position()))
                == Ok::<(int, u64), Error>((final(self).position() - old(self).position(), v)),
            r matches Err(e) ==> e == Error::MalformedVarint || e == eof() || e == stream_failed(),
    {
        let ghost p0 = self.position();
        let mut bytes: Vec<u8> = Vec::new();
        loop
            invariant
                self.wf(),
                self.capacity() == old(self).capacity(),
                self.received().take(old(self).received().len() as int) == old(self).received(),
                self.received().len() >= old(self).received().len(),
                p0 == old(self).position(),
                0 <= p0,
                bytes@.len() < 10,
                self.position() == p0 + bytes@.len(),
                bytes@ == self.received().subrange(p0, p0 + bytes@.len()),
                forall|j: int| 0 <= j < bytes@.len() ==> #[trigger] bytes@[j] >= 0x80,
            decreases 10 - bytes@.len(),
        {
            let mut one = [0u8; 1];
            let ghost before = self.received();
            match self.read_exact(&mut one) {
                Ok(()) => {},
                Err(e) => return Err(e),
            }
            let b = one[0];
            let ghost prev = bytes@;
            bytes.push(b);
            proof {
                assert forall|k: int| 0 <= k < prev.len() implies #[trigger] self.received().subrange(p0, p0 + prev.len())[k]
                    == before.subrange(p0, p0 + prev.len())[k] by {
                    assert(self.received()[p0 + k] == self.received().take(before.len() as int)[p0 + k]);
                }
                assert(self.received().take(old(self).received().len() as int) =~= before.take(
                    old(self).received().len() as int,
                ));
                assert(bytes@ =~= self.received().subrange(p0, p0 + bytes@.len()));
            }
            if b < 0x80 {
                let ghost t = self.received().skip(p0);
                let mut rd = CodedReader::with_slice(bytes.as_slice());
                proof {
                    let bs = bytes@;
                    assert(rd.available() =~= bs);
                    lemma_varint_end_step(bs, 0);
                    lemma_varint_end_facts(bs, 0);
                    assert(forall|j: int| 0 <= j < bs.len() ==> #[trigger] bs[j] == t[j]);
                    lemma_varint_end_prefix(bs, t, 0);
                    assert(t.take(bs.len() as int) =~= bs);
                    assert(bs.take(bs.len() as int) =~= bs);
                }
                return rd.read_varint64();
            }
            if bytes.len() == 10 {
                return Err(Error::MalformedVarint);
            }
        }
    }
}

/// A writer to a `Write` stream, which gathers bytes in a buffer and hands them to the stream
/// when the buffer is full or is flushed.
pub struct StreamWriter<W: Write> {
    output: W,
    data: Vec<u8>,
    cap: usize,
    sent: Ghost<Seq<u8>>,
}

impl<W: Write> StreamWriter<W> {
    /// The bytes handed to the stream so far, each time with the stream reporting success.
    pub closed spec fn sent(&self) -> Seq<u8> {
        self.sent@
    }

    /// The bytes written but not yet handed to the stream.
    pub closed spec fn buffered(&self) -> Seq<u8> {
        self.data@
    }

    /// The number of bytes the buffer holds at most.
    pub closed spec fn capacity(&self) -> nat {
        self.cap as nat
    }

    /// Creates a writer to the stream whose buffer holds up to `capacity` bytes; with a
    /// capacity of zero every write goes straight to the stream.
    pub fn with_write(capacity: usize, output: W) -> (r: StreamWriter<W>)
        ensures
            r.sent() == Seq::<u8>::empty(),
            r.buffered() == Seq::<u8>::empty(),
            r.capacity() == capacity,
    {
        StreamWriter { output, data: Vec::new(), cap: capacity, sent: Ghost(Seq::empty()) }
    }

    /// Hands the buffered bytes to the stream. On success they count as sent and the buffer is
    /// empty; if the stream fails, nothing changes.
    pub fn flush(&mut self) -> (r: WriteResult)
        ensures
            final(self).capacity() == old(self).capacity(),
            r is Ok ==> final(self).sent() == old(self).sent() + old(self).buffered()
                && final(self).buffered() == Seq::<u8>::empty(),
            r matches Err(e) ==> e == WriteError::IoError(IoErrorKind::Other)
                && final(self).sent() == old(self).sent() && final(self).buffered() == old(self).buffered(),
    {
        if self.data.len() == 0 {
            assert(self.sent@ + self.data@ =~= self.sent@);
            return Ok(());
        }
        match self.output.write(self.data.as_slice()) {
            Ok(()) => {
                let ghost s = self.sent@ + self.data@;
                self.data = Vec::new();
                self.sent = Ghost(s);
                Ok(())
            },
            Err(_) => Err(WriteError::IoError(IoErrorKind::Other)),
        }
    }

    /// Writes the bytes: they are added to the buffer, which is flushed first when they do
    /// not fit in what is left of it, and handed straight to the stream when they do not fit in
    /// the buffer at all. On success everything written so far is what was sent, then what is
    /// buffered; on failure the bytes written so far are all still sent or buffered.
    pub fn write_bytes(&mut self, bytes: &[u8]) -> (r: WriteResult)
        ensures
            final(self).capacity() == old(self).capacity(),
            r is Ok ==> final(self).sent() + final(self).buffered() == old(self).sent() + old(self).buffered()
                + bytes@,
            r is Err ==> final(self).sent() + final(self).buffered() == old(self).sent() + old(self).buffered(),
    {
        if self.data.len() > self.cap || bytes.len() > self.cap - self.data.len() {
            match self.flush() {
                Ok(()) => {},
                Err(e) => return Err(e),
            }
        }
        if self.data.len() > self.cap || bytes.len() > self.cap - self.data.len() {
            match self.output.write(bytes) {
                Ok(()) => {
                    let ghost s = self.sent@ + bytes@;
                    self.sent = Ghost(s);
                    assert(self.data@ =~= Seq::<u8>::empty());
                    Ok(())
                },
                Err(_) => Err(WriteError::IoError(IoErrorKind::Other)),
            }
        } else {
            let ghost d0 = self.data@;
            let ghost s0 = self.sent@;
            let mut i: usize = 0;
            while i < bytes.len()
                invariant
                    i <= bytes@.len(),
                    self.data@ == d0 + bytes@.take(i as int),
                    self.sent@ == s0,
                    s0 + d0 == old(self).sent@ + old(self).data@,
                    self.cap == old(self).cap,
                decreases bytes@.len() - i,
            {
                self.data.push(bytes[i]);
                i = i + 1;
                assert(self.data@ =~= d0 + bytes@.take(i as int));
            }
            assert(bytes@.take(bytes@.len() as int) =~= bytes@);
            assert(s0 + (d0 + bytes@) =~= old(self).sent@ + old(self).data@ + bytes@);
            Ok(())
        }
    }

    /// Flushes the buffer and returns the stream.
    pub fn into_inner(self) -> (r: core::result::Result<W, WriteError>) {
        let mut this = self;
        match this.flush() {
            Ok(()) => Ok(this.output),
            Err(e) => Err(e),
        }
    }
}

/// In a run of bytes that carry on, ending in one that does not, reading a varint from any
/// index of the run ends at its last byte.
proof fn lemma_varint_end_step(s: Seq<u8>, k: int)
    requires
        0 <= k < s.len() <= 10,
        s[s.len() - 1] < 0x80,
        forall|j: int| 0 <= j < s.len() - 1 ==> #[trigger] s[j] >= 0x80,
    ensures
        varint_end_from(s, k) == Some(s.len() - 1),
    decreases s.len() - k,
{
    if k < s.len() - 1 {
        assert(s[k] >= 0x80);
        lemma_varint_end_step(s, k + 1);
    }
}

} // verus!
