//! A protobuf implementation: the wire format, coded readers and writers,
//! value encodings, unknown field sets and the descriptor messages.

use vstd::prelude::*;

pub mod collections;
pub mod descriptor;
pub mod extend;
pub mod io;
pub mod raw;
pub mod reflect;

pub use collections::unknown_fields::UnknownFieldSet;

use collections::unknown_fields::FieldValue;
use io::{Length, Tag};
use io::read::{CodedReader, merge_outcome, skips};
use io::write::{CodedWriter, parts_written};
use raw::parts_size;

verus! {

/// A message value: it is read from a coded reader, written to a coded writer, and keeps the
/// fields it does not know as unknown fields.
pub trait Message: Sized + View {
    /// What merging the fields in all of `s` into a message viewed as `v` gives: the message
    /// after, or the error. `depth` and `limit` are the reader's depth and recursion limit,
    /// `skip` whether it skips unknown fields, and `eg` the end tag of the group it is in.
    spec fn merged(
        v: Self::V,
        s: Seq<u8>,
        depth: nat,
        limit: nat,
        skip: bool,
        eg: Option<Tag>,
    ) -> io::read::Result<Self::V>;

    /// The parts a message viewed as `v` is written as.
    spec fn parts(v: Self::V) -> Seq<(bool, Seq<u8>)>;

    /// Whether a message viewed as `v` is initialized: whether all its required fields are set.
    spec fn initialized(v: Self::V) -> bool;

    /// The unknown fields of a message viewed as `v`.
    spec fn unknown_fields_of(v: Self::V) -> Seq<(u32, Seq<FieldValue>)>;

    /// The message viewed as `v` with `u` as its unknown fields.
    spec fn with_unknown_fields(v: Self::V, u: Seq<(u32, Seq<FieldValue>)>) -> Self::V;

    /// Merges this message with fields read from the reader, up to its limit.
    fn merge_from(&mut self, input: &mut CodedReader) -> (r: io::read::Result<()>)
        ensures
            merge_outcome(
                Self::merged(
                    old(self)@,
                    old(input).available(),
                    old(input).depth(),
                    old(input).recursion_limit(),
                    skips(*old(input)),
                    old(input).end_group_view(),
                ),
                final(self)@,
                *old(input),
                *final(input),
                r,
            ),
    ;

    /// Calculates the size of this message as it is written: `None` if a part of it cannot be
    /// written or the size does not fit in a length.
    fn calculate_size(&self) -> (r: Option<Length>)
        ensures
            match r {
                Some(l) => parts_size(Self::parts(self@)) == Some(l@ as int),
                None => parts_size(Self::parts(self@)) is None,
            },
    ;

    /// Writes this message to the writer.
    fn write_to(&self, output: &mut CodedWriter) -> (r: io::write::Result)
        ensures
            (final(output).written(), r) == parts_written(
                old(output).written(),
                old(output).capacity(),
                Self::parts(self@),
            ),
            final(output).capacity() == old(output).capacity(),
            (*final(final(output).target()))@ == (*final(old(output).target()))@,
    ;

    /// Returns whether this message is initialized.
    fn is_initialized(&self) -> (r: bool)
        ensures
            r == Self::initialized(self@),
    ;

    /// Gets the unknown fields of this message.
    fn unknown_fields(&self) -> (r: &UnknownFieldSet)
        ensures
            r@ == Self::unknown_fields_of(self@),
    ;

    /// Gets the unknown fields of this message for changing them.
    fn unknown_fields_mut(&mut self) -> (r: &mut UnknownFieldSet)
        ensures
            (*r)@ == Self::unknown_fields_of(old(self)@),
            final(self)@ == Self::with_unknown_fields(old(self)@, (*final(r))@),
    ;
}

/// An enum value: a value held as an `i32`, which need not be one of the enum's named values.
pub trait Enum: View<V = i32> + Copy {
    /// Makes the enum value with the number.
    fn from_i32(v: i32) -> (r: Self)
        ensures
            r@ == v,
    ;

    /// The enum value's number.
    fn into_i32(self) -> (r: i32)
        ensures
            r == self@,
    ;
}

/// A type that can be merged with a value of `T`. What merging does is specific to each type:
/// a repeated field is extended with the entries of the other.
pub trait Mergable<T: View = Self>: Sized + View {
    /// Whether `result` is what merging `other` into `this` can give.
    spec fn merge_of(this: Self::V, other: T::V, result: Self::V) -> bool;

    /// Merges another value into this one.
    fn merge(&mut self, other: &T)
        ensures
            Self::merge_of(old(self)@, other@, final(self)@),
    ;
}

/// Merges two values together, by `Mergable::merge`.
pub fn merge<T: Mergable<V>, V: View>(value: &mut T, other: &V)
    ensures
        T::merge_of(old(value)@, other@, final(value)@),
{
    value.merge(other)
}

/// Returns whether a value is initialized: whether all its required fields are set. The
/// messages of this library have no required fields, so every value is.
pub fn is_initialized<T: ?Sized>(t: &T) -> (r: bool)
    ensures
        r,
{
    true
}

} // verus!
