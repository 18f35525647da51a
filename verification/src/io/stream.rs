//! Byte sources and destinations: reading from slices and writing to slices and vectors.

use vstd::prelude::*;
use vstd::slice::slice_subrange;

verus! {

/// An error type returned when an error occurs while reading from or writing to a stream.
#[derive(Clone, Copy, PartialEq, Eq, Structural, Debug)]
pub struct Error;

/// A trait for reading bytes from a source.
pub trait Read {
    /// Reads from the input into the specified buffer, returning the number of bytes read.
    fn read(&mut self, buf: &mut [u8]) -> Result<usize, Error>;

    /// Reads from the input into the specified buffer until the buffer is filled.
    fn read_exact(&mut self, buf: &mut [u8]) -> Result<(), Error>;

    /// Skips a certain number of bytes from the input, returning an error if there are
    /// not that many bytes.
    fn skip(&mut self, len: usize) -> Result<(), Error>;
}

/// Copies `src[0..n]` into the front of `dst`.
fn copy_prefix(dst: &mut [u8], src: &[u8], n: usize)
    requires
        n <= old(dst)@.len(),
        n <= src@.len(),
    ensures
        final(dst)@.len() == old(dst)@.len(),
        final(dst)@ == src@.take(n as int) + old(dst)@.skip(n as int),
{
    let mut i: usize = 0;
    while i < n
        invariant
            i <= n,
            n <= dst@.len(),
            n <= src@.len(),
            dst@.len() == old(dst)@.len(),
            dst@ == src@.take(i as int) + old(dst)@.skip(i as int),
        decreases n - i,
    {
        dst[i] = src[i];
        i = i + 1;
        assert(dst@ =~= src@.take(i as int) + old(dst)@.skip(i as int));
    }
}

impl<'a> Read for &'a [u8] {
    /// Reads as many bytes as both the input and the buffer hold, moving the input past them.
    fn read(&mut self, buf: &mut [u8]) -> (r: Result<usize, Error>)
        ensures
            ({
                let amt = if old(buf)@.len() < old(self)@.len() {
                    old(buf)@.len()
                } else {
                    old(self)@.len()
                };
                &&& r == Ok::<usize, Error>(amt as usize)
                &&& final(buf)@ == old(self)@.take(amt as int) + old(buf)@.skip(amt as int)
                &&& final(self)@ == old(self)@.skip(amt as int)
            }),
    {
        let amt = if buf.len() < self.len() {
            buf.len()
        } else {
            self.len()
        };
        copy_prefix(buf, *self, amt);
        *self = slice_subrange(*self, amt, self.len());
        Ok(amt)
    }

    /// Fills the buffer from the front of the input, or fails if the input is shorter.
    /// The input is not moved.
    fn read_exact(&mut self, buf: &mut [u8]) -> (r: Result<(), Error>)
        ensures
            old(buf)@.len() <= old(self)@.len() ==> r == Ok::<(), Error>(()) && final(buf)@ == old(self)@.take(old(buf)@.len() as int),
            old(buf)@.len() > old(self)@.len() ==> r == Err::<(), Error>(Error) && final(buf)@
                == old(buf)@,
            final(self)@ == old(self)@,
    {
        if buf.len() <= self.len() {
            let n = buf.len();
            copy_prefix(buf, *self, n);
            assert(buf@ =~= old(self)@.take(n as int));
            Ok(())
        } else {
            Err(Error)
        }
    }

    /// Moves the input past `len` bytes, or fails without moving it if it is shorter.
    fn skip(&mut self, len: usize) -> (r: Result<(), Error>)
        ensures
            len <= old(self)@.len() ==> r == Ok::<(), Error>(()) && final(self)@ == old(self)@.skip(
                len as int,
            ),
            len > old(self)@.len() ==> r == Err::<(), Error>(Error) && final(self)@ == old(self)@,
    {
        if len > self.len() {
            return Err(Error);
        }
        *self = slice_subrange(*self, len, self.len());
        Ok(())
    }
}

/// A trait for writing bytes to a destination.
pub trait Write {
    /// Writes all data in the buffer to the output.
    fn write(&mut self, buf: &[u8]) -> Result<(), Error>;
}

impl<'a> Write for &'a mut [u8] {
    /// Writes the bytes to the front of the slice and moves the slice past them,
    /// or fails without writing if they do not fit.
    fn write(&mut self, buf: &[u8]) -> (r: Result<(), Error>)
        ensures
            buf@.len() <= old(self)@.len() ==> {
                &&& r == Ok::<(), Error>(())
                &&& final(self)@ == old(self)@.skip(buf@.len() as int)
                &&& (*final(*old(self)))@ == buf@ + (*final(*final(self)))@
            },
            buf@.len() > old(self)@.len() ==> r == Err::<(), Error>(Error) && *final(self)
                == *old(self),
    {
        if buf.len() <= self.len() {
            let mut taken: &'a mut [u8] = &mut [];
            core::mem::swap(&mut taken, self);
            let (a, b) = taken.split_at_mut(buf.len());
            copy_prefix(a, buf, buf.len());
            *self = b;
            Ok(())
        } else {
            Err(Error)
        }
    }
}

impl Write for Vec<u8> {
    /// Appends the bytes to the vector.
    fn write(&mut self, buf: &[u8]) -> (r: Result<(), Error>)
        ensures
            r == Ok::<(), Error>(()),
            final(self)@ == old(self)@ + buf@,
    {
        let mut i: usize = 0;
        while i < buf.len()
            invariant
                i <= buf@.len(),
                self@ == old(self)@ + buf@.take(i as int),
            decreases buf@.len() - i,
        {
            self.push(buf[i]);
            i = i + 1;
            assert(self@ =~= old(self)@ + buf@.take(i as int));
        }
        assert(buf@.take(buf@.len() as int) =~= buf@);
        Ok(())
    }
}

} // verus!
