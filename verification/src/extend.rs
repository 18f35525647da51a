//! Types and traits for working with proto2 extensions: the identifiers that name an extension
//! field, the values an extension holds in a message with how each is read, sized and written,
//! and (in `set`) the registries of identifiers and the extension sets that read with them.

use vstd::prelude::*;
use crate::collections::{RepeatedValue, views};
use crate::io::{
    FieldNumber, LengthBuilder, Tag, WireType, tag_value, tag_field, tag_wire_number,
    wire_type_from_number, wire_type_packable,
};
use crate::io::read::{self, CodedReader, Error as ReadError, moved, same_but_position};
use crate::io::write::{CodedWriter, parts_written, parts_bytes, Result as WriteResult};
use crate::raw::{Value, ValueType, Packable, Packed, size_added, field_parts, field_encoding};
use crate::collections::unpacked_parts;
use crate::io::write::parts_encodable;

pub mod set;

verus! {

/// The result of trying to read the value of an extension.
pub enum TryReadValue<U> {
    /// The field was not the extension's: nothing was read.
    Yielded,
    /// The extension's value was read.
    Consumed(U),
}

/// Whether the last tag read is the tag of field number `num` with wire type `wt`.
pub open spec fn last_tag_is(last: Option<Tag>, num: u32, wt: WireType) -> bool {
    last matches Some(t) && t@ == tag_value(num, wt)
}

/// Whether the last tag read, which is known, is one a repeated extension of field number
/// `num` reads: its field number is `num` and its wire type is that of the values, or length
/// delimited where the values can be packed.
pub open spec fn repeated_tag_is(last: Tag, num: u32, wt: WireType) -> bool {
    let lw = wire_type_from_number(tag_wire_number(last@));
    &&& tag_field(last@) == num
    &&& (lw == wt || (wire_type_packable(wt) && lw == WireType::LengthDelimited))
}

/// The value of a singular extension field of value type `V`, with its field number.
pub struct ExtensionValue<V: Value> {
    /// The value.
    pub value: V::Inner,
    /// The field number of the extension.
    pub num: FieldNumber,
}

impl<V: Value> ExtensionValue<V> {
    /// Gets the field number of the extension.
    pub fn field_number(&self) -> (r: FieldNumber)
        ensures
            r == self.num,
    {
        self.num
    }

    /// Merges the value read from the input into this one where the last tag read is the
    /// extension's, made of its field number and its value type's wire type. Else nothing is
    /// read.
    pub fn try_merge_from(&mut self, input: &mut CodedReader) -> (r: read::Result<TryReadValue<()>>)
        ensures
            final(self).num == old(self).num,
            if last_tag_is(old(input).last_tag_view(), old(self).num@, V::spec_wire_type()) {
                match V::decoding(old(input).available()) {
                    Ok((n, v)) => r == Ok::<TryReadValue<()>, ReadError>(TryReadValue::Consumed(()))
                        && final(self).value@ == v && moved(*old(input), *final(input), n),
                    Err(e) => r == Err::<TryReadValue<()>, ReadError>(e) && *final(self) == *old(self)
                        && same_but_position(*old(input), *final(input)),
                }
            } else {
                &&& r == Ok::<TryReadValue<()>, ReadError>(TryReadValue::Yielded)
                &&& *final(self) == *old(self)
                &&& *final(input) == *old(input)
            },
    {
        let tag = Tag::new(self.num, V::wire_type());
        let found = match input.last_tag() {
            Some(t) => t.get() == tag.get(),
            None => false,
        };
        if found {
            match input.merge_value::<V>(&mut self.value) {
                Ok(()) => Ok(TryReadValue::Consumed(())),
                Err(e) => Err(e),
            }
        } else {
            Ok(TryReadValue::Yielded)
        }
    }

    /// Adds the size of the extension's field to the builder: its tag and its value.
    pub fn calculate_size(&self, builder: LengthBuilder) -> (r: Option<LengthBuilder>)
        ensures
            size_added(
                builder@ as int,
                V::encodable(self.value@),
                field_encoding::<V>(self.num@, self.value@).len() as int,
                r,
            ),
    {
        builder.add_field::<V>(self.num, &self.value)
    }

    /// Writes the extension's field to the output: its tag and its value.
    pub fn write_to(&self, output: &mut CodedWriter) -> (r: WriteResult)
        ensures
            (final(output).written(), r) == parts_written(
                old(output).written(),
                old(output).capacity(),
                field_parts::<V>(self.num@, self.value@),
            ),
            final(output).capacity() == old(output).capacity(),
            (*final(final(output).target()))@ == (*final(old(output).target()))@,
    {
        output.write_field::<V>(self.num, &self.value)
    }

    /// Returns whether the value is initialized; values of these types always are.
    pub fn is_initialized(&self) -> (r: bool)
        ensures
            r,
    {
        V::is_initialized(&self.value)
    }
}

/// The values of a repeated extension field of value type `V`, with its field number.
pub struct RepeatedExtensionValue<V: ValueType> {
    /// The values.
    pub value: Vec<V::Inner>,
    /// The field number of the extension.
    pub num: FieldNumber,
}

impl<V: Value> RepeatedExtensionValue<V> {
    /// Gets the field number of the extension.
    pub fn field_number(&self) -> (r: FieldNumber)
        ensures
            r == self.num,
    {
        self.num
    }

    /// Adds the entries read from the input to the values where the last tag read is one of the
    /// extension's: its field number with the values' wire type, or length delimited where
    /// the values can be packed. Else nothing is read. A tag must have been read.
    pub fn try_merge_from(&mut self, input: &mut CodedReader) -> (r: read::Result<TryReadValue<()>>)
        requires
            old(input).last_tag_view() is Some,
        ensures
            final(self).num == old(self).num,
            if repeated_tag_is(old(input).last_tag_view()->0, old(self).num@, V::spec_wire_type()) {
                match <Vec<V::Inner> as RepeatedValue<V>>::entries_read(old(input).available()) {
                    Ok((n, es)) => r == Ok::<TryReadValue<()>, ReadError>(TryReadValue::Consumed(()))
                        && views(final(self).value@) == views(old(self).value@) + es
                        && moved(*old(input), *final(input), n),
                    Err(e) => r == Err::<TryReadValue<()>, ReadError>(e)
                        && views(old(self).value@).is_prefix_of(views(final(self).value@)),
                }
            } else {
                &&& r == Ok::<TryReadValue<()>, ReadError>(TryReadValue::Yielded)
                &&& *final(self) == *old(self)
                &&& *final(input) == *old(input)
            },
    {
        let tag = match input.last_tag() {
            Some(t) => t,
            None => return Ok(TryReadValue::Yielded),
        };
        let num = tag.field();
        let wt = tag.wire_type();
        let own = V::wire_type();
        if self.num.get() == num.get() && (wt == own || (own.is_packable() && wt == WireType::LengthDelimited)) {
            match <Vec<V::Inner> as RepeatedValue<V>>::add_entries_from(&mut self.value, input) {
                Ok(()) => Ok(TryReadValue::Consumed(())),
                Err(e) => Err(e),
            }
        } else {
            Ok(TryReadValue::Yielded)
        }
    }

    /// Adds the size of the extension's fields to the builder: for each value, its tag and
    /// the value.
    pub fn calculate_size(&self, builder: LengthBuilder) -> (r: Option<LengthBuilder>)
        ensures
            size_added(
                builder@ as int,
                <Vec<V::Inner> as RepeatedValue<V>>::countable(&self.value),
                parts_bytes(<Vec<V::Inner> as RepeatedValue<V>>::parts(&self.value, self.num@)).len() as int,
                r,
            ),
    {
        builder.add_values::<Vec<V::Inner>, V>(self.num, &self.value)
    }

    /// Writes the extension's fields to the output: for each value, its tag and the value.
    pub fn write_to(&self, output: &mut CodedWriter) -> (r: WriteResult)
        ensures
            (final(output).written(), r) == parts_written(
                old(output).written(),
                old(output).capacity(),
                <Vec<V::Inner> as RepeatedValue<V>>::parts(&self.value, self.num@),
            ),
            final(output).capacity() == old(output).capacity(),
            (*final(final(output).target()))@ == (*final(old(output).target()))@,
    {
        output.write_values::<Vec<V::Inner>, V>(&self.value, self.num)
    }

    /// Returns whether the values are initialized; values of these types always are.
    pub fn is_initialized(&self) -> (r: bool)
        ensures
            r,
    {
        <Vec<V::Inner> as RepeatedValue<V>>::is_initialized(&self.value)
    }
}

/// The default value of an extension: one that lives for the whole program, or one the
/// extension owns.
pub enum ExtensionDefault<T: 'static> {
    /// A default that lives for the whole program.
    Static(&'static T),
    /// A default the extension owns.
    Owned(T),
}

/// The view of an extension's default value.
pub open spec fn default_view<T: View>(d: Option<ExtensionDefault<T>>) -> Option<T::V> {
    match d {
        Some(ExtensionDefault::Static(v)) => Some(v@),
        Some(ExtensionDefault::Owned(v)) => Some(v@),
        None => None,
    }
}

/// An identifier of a singular extension field of value type `V`: its field number and its
/// default value, if it has one.
pub struct Extension<V: Value> where V::Inner: 'static {
    num: FieldNumber,
    default: Option<ExtensionDefault<V::Inner>>,
}

impl<V: Value> Extension<V> where V::Inner: 'static {
    /// The field number of the extension.
    pub closed spec fn num_view(&self) -> u32 {
        self.num@
    }

    /// The view of the extension's default value, if it has one.
    pub closed spec fn default_value_view(&self) -> Option<<V::Inner as View>::V> {
        default_view(self.default)
    }

    /// Makes an extension identifier with a default value that lives for the whole program.
    pub fn with_static_default(num: FieldNumber, default: &'static V::Inner) -> (r: Self)
        ensures
            r.num_view() == num@,
            r.default_value_view() == Some(default@),
    {
        Extension { num, default: Some(ExtensionDefault::Static(default)) }
    }

    /// Makes an extension identifier without a default value.
    pub fn with_no_default(num: FieldNumber) -> (r: Self)
        ensures
            r.num_view() == num@,
            r.default_value_view() is None,
    {
        Extension { num, default: None }
    }

    /// Makes an extension identifier that owns its default value.
    pub fn with_owned_default(num: FieldNumber, default: V::Inner) -> (r: Self)
        ensures
            r.num_view() == num@,
            r.default_value_view() == Some(default@),
    {
        Extension { num, default: Some(ExtensionDefault::Owned(default)) }
    }

    /// Gets the field number of the extension.
    pub fn field_number(&self) -> (r: FieldNumber)
        ensures
            r@ == self.num_view(),
    {
        self.num
    }

    /// Gets the default value of the extension, if it has one.
    pub fn default_value(&self) -> (r: Option<&V::Inner>)
        ensures
            match r {
                Some(v) => self.default_value_view() == Some(v@),
                None => self.default_value_view() is None,
            },
    {
        match &self.default {
            Some(ExtensionDefault::Static(v)) => Some(*v),
            Some(ExtensionDefault::Owned(v)) => Some(v),
            None => None,
        }
    }

    /// Makes the extension's value in a message from a value.
    pub fn new_entry(&self, value: V::Inner) -> (r: ExtensionValue<V>)
        ensures
            r.num@ == self.num_view(),
            r.value == value,
    {
        ExtensionValue { num: self.num, value }
    }

    /// Reads the extension's value from the input where the last tag read is the extension's,
    /// made of its field number and its value type's wire type. Else nothing is read.
    pub fn try_read_value(&self, input: &mut CodedReader) -> (r: read::Result<TryReadValue<ExtensionValue<V>>>)
        ensures
            if last_tag_is(old(input).last_tag_view(), self.num_view(), V::spec_wire_type()) {
                match V::decoding(old(input).available()) {
                    Ok((n, v)) => r matches Ok(TryReadValue::Consumed(e)) && e.value@ == v
                        && e.num@ == self.num_view() && moved(*old(input), *final(input), n),
                    Err(e) => r == Err::<TryReadValue<ExtensionValue<V>>, ReadError>(e)
                        && same_but_position(*old(input), *final(input)),
                }
            } else {
                r matches Ok(TryReadValue::Yielded) && *final(input) == *old(input)
            },
    {
        let tag = Tag::new(self.num, V::wire_type());
        let found = match input.last_tag() {
            Some(t) => t.get() == tag.get(),
            None => false,
        };
        if found {
            match input.read_value::<V>() {
                Ok(v) => Ok(TryReadValue::Consumed(self.new_entry(v))),
                Err(e) => Err(e),
            }
        } else {
            Ok(TryReadValue::Yielded)
        }
    }
}

/// An identifier of a repeated extension field of value type `V`: its field number.
pub struct RepeatedExtension<V: ValueType> {
    num: FieldNumber,
    value_type: core::marker::PhantomData<V>,
}

impl<V: ValueType> RepeatedExtension<V> {
    /// The field number of the extension.
    pub closed spec fn num_view(&self) -> u32 {
        self.num@
    }

    /// Makes a repeated extension identifier with the field number.
    pub fn new(num: FieldNumber) -> (r: Self)
        ensures
            r.num_view() == num@,
    {
        RepeatedExtension { num, value_type: core::marker::PhantomData }
    }

    /// Gets the field number of the extension.
    pub fn field_number(&self) -> (r: FieldNumber)
        ensures
            r@ == self.num_view(),
    {
        self.num
    }
}

impl<V: Value> RepeatedExtension<V> {
    /// Makes the extension's values in a message from the values.
    pub fn new_entry(&self, value: Vec<V::Inner>) -> (r: RepeatedExtensionValue<V>)
        ensures
            r.num@ == self.num_view(),
            r.value == value,
    {
        RepeatedExtensionValue { num: self.num, value }
    }

    /// Reads the extension's values from the input where the last tag read is one of the
    /// extension's: its field number with the values' wire type, or length delimited where
    /// the values can be packed. Else nothing is read. A tag must have been read.
    pub fn try_read_value(&self, input: &mut CodedReader) -> (r: read::Result<TryReadValue<RepeatedExtensionValue<V>>>)
        requires
            old(input).last_tag_view() is Some,
        ensures
            if repeated_tag_is(old(input).last_tag_view()->0, self.num_view(), V::spec_wire_type()) {
                match <Vec<V::Inner> as RepeatedValue<V>>::entries_read(old(input).available()) {
                    Ok((n, es)) => r matches Ok(TryReadValue::Consumed(e)) && views(e.value@) == es
                        && e.num@ == self.num_view() && moved(*old(input), *final(input), n),
                    Err(e) => r == Err::<TryReadValue<RepeatedExtensionValue<V>>, ReadError>(e),
                }
            } else {
                r matches Ok(TryReadValue::Yielded) && *final(input) == *old(input)
            },
    {
        let mut entry = self.new_entry(Vec::new());
        proof {
            assert(views(entry.value@) =~= Seq::<<V::Inner as View>::V>::empty());
        }
        match entry.try_merge_from(input) {
            Ok(TryReadValue::Consumed(())) => {
                proof {
                    assert(Seq::<<V::Inner as View>::V>::empty() + views(entry.value@) =~= views(entry.value@));
                }
                Ok(TryReadValue::Consumed(entry))
            },
            Ok(TryReadValue::Yielded) => Ok(TryReadValue::Yielded),
            Err(e) => Err(e),
        }
    }
}

/// Whether the last tag read, which is known, is one a packed repeated extension of field
/// number `num` reads: its field number is `num` and its wire type is length delimited or that
/// of the values.
pub open spec fn packed_tag_is(last: Tag, num: u32, wt: WireType) -> bool {
    let lw = wire_type_from_number(tag_wire_number(last@));
    &&& tag_field(last@) == num
    &&& (lw == WireType::LengthDelimited || lw == wt)
}

impl<V: Value + Packable> RepeatedExtensionValue<Packed<V>> {
    /// Gets the field number of the extension.
    pub fn field_number(&self) -> (r: FieldNumber)
        ensures
            r == self.num,
    {
        self.num
    }

    /// Adds the entries read from the input to the values, read as a packed field, where the
    /// last tag read is one of the extension's: its field number, length delimited or with
    /// the values' wire type. Else nothing is read. A tag must have been read.
    pub fn try_merge_from(&mut self, input: &mut CodedReader) -> (r: read::Result<TryReadValue<()>>)
        requires
            old(input).last_tag_view() is Some,
        ensures
            final(self).num == old(self).num,
            if packed_tag_is(old(input).last_tag_view()->0, old(self).num@, V::spec_wire_type()) {
                match <Vec<V::Inner> as RepeatedValue<Packed<V>>>::entries_read(old(input).available()) {
                    Ok((n, es)) => r == Ok::<TryReadValue<()>, ReadError>(TryReadValue::Consumed(()))
                        && views(final(self).value@) == views(old(self).value@) + es
                        && moved(*old(input), *final(input), n),
                    Err(e) => r == Err::<TryReadValue<()>, ReadError>(e)
                        && views(old(self).value@).is_prefix_of(views(final(self).value@)),
                }
            } else {
                &&& r == Ok::<TryReadValue<()>, ReadError>(TryReadValue::Yielded)
                &&& *final(self) == *old(self)
                &&& *final(input) == *old(input)
            },
    {
        let tag = match input.last_tag() {
            Some(t) => t,
            None => return Ok(TryReadValue::Yielded),
        };
        let num = tag.field();
        let wt = tag.wire_type();
        if self.num.get() == num.get() && (wt == WireType::LengthDelimited || wt == V::wire_type()) {
            match <Vec<V::Inner> as RepeatedValue<Packed<V>>>::add_entries_from(&mut self.value, input) {
                Ok(()) => Ok(TryReadValue::Consumed(())),
                Err(e) => Err(e),
            }
        } else {
            Ok(TryReadValue::Yielded)
        }
    }

    /// Adds the size of the extension's packed field to the builder: nothing for no value,
    /// else its tag, its length and the values.
    pub fn calculate_size(&self, builder: LengthBuilder) -> (r: Option<LengthBuilder>)
        ensures
            size_added(
                builder@ as int,
                <Vec<V::Inner> as RepeatedValue<Packed<V>>>::countable(&self.value),
                parts_bytes(<Vec<V::Inner> as RepeatedValue<Packed<V>>>::parts(&self.value, self.num@)).len() as int,
                r,
            ),
    {
        builder.add_values::<Vec<V::Inner>, Packed<V>>(self.num, &self.value)
    }

    /// Writes the extension's packed field to the output: nothing for no value, else its tag,
    /// its length and the values.
    pub fn write_to(&self, output: &mut CodedWriter) -> (r: WriteResult)
        ensures
            (final(output).written(), r) == parts_written(
                old(output).written(),
                old(output).capacity(),
                <Vec<V::Inner> as RepeatedValue<Packed<V>>>::parts(&self.value, self.num@),
            ),
            final(output).capacity() == old(output).capacity(),
            (*final(final(output).target()))@ == (*final(old(output).target()))@,
    {
        output.write_values::<Vec<V::Inner>, Packed<V>>(&self.value, self.num)
    }

    /// Returns whether the values are initialized; values of these types always are.
    pub fn is_initialized(&self) -> (r: bool)
        ensures
            r,
    {
        <Vec<V::Inner> as RepeatedValue<Packed<V>>>::is_initialized(&self.value)
    }
}

impl<V: Value + Packable> RepeatedExtension<Packed<V>> {
    /// Makes the extension's values in a message from the values.
    pub fn new_entry(&self, value: Vec<V::Inner>) -> (r: RepeatedExtensionValue<Packed<V>>)
        ensures
            r.num@ == self.num_view(),
            r.value == value,
    {
        RepeatedExtensionValue { num: self.num, value }
    }

    /// Reads the extension's values from the input where the last tag read is one of the
    /// extension's: its field number, length delimited or with the values' wire type. The
    /// values are read one field at a time, as an unpacked field. Else nothing is read. A tag
    /// must have been read.
    pub fn try_read_value(&self, input: &mut CodedReader) -> (r: read::Result<TryReadValue<RepeatedExtensionValue<Packed<V>>>>)
        requires
            old(input).last_tag_view() is Some,
        ensures
            if packed_tag_is(old(input).last_tag_view()->0, self.num_view(), V::spec_wire_type()) {
                match <Vec<V::Inner> as RepeatedValue<V>>::entries_read(old(input).available()) {
                    Ok((n, es)) => r matches Ok(TryReadValue::Consumed(e)) && views(e.value@) == es
                        && e.num@ == self.num_view() && moved(*old(input), *final(input), n),
                    Err(e) => r == Err::<TryReadValue<RepeatedExtensionValue<Packed<V>>>, ReadError>(e),
                }
            } else {
                r matches Ok(TryReadValue::Yielded) && *final(input) == *old(input)
            },
    {
        let tag = match input.last_tag() {
            Some(t) => t,
            None => return Ok(TryReadValue::Yielded),
        };
        let num = tag.field();
        let wt = tag.wire_type();
        if self.num.get() == num.get() && (wt == WireType::LengthDelimited || wt == V::wire_type()) {
            let mut v: Vec<V::Inner> = Vec::new();
            match <Vec<V::Inner> as RepeatedValue<V>>::add_entries_from(&mut v, input) {
                Ok(()) => {
                    proof {
                        assert(Seq::<<V::Inner as View>::V>::empty() + views(v@) =~= views(v@));
                    }
                    Ok(TryReadValue::Consumed(self.new_entry(v)))
                },
                Err(e) => Err(e),
            }
        } else {
            Ok(TryReadValue::Yielded)
        }
    }
}

/// The value of an extension field in a message, whatever its value type: what the message's
/// extension set holds for one field number.
pub trait AnyExtension: View + Sized {
    /// The field number of an extension value viewed as `v`.
    spec fn num_of(v: Self::V) -> u32;

    /// What trying to merge the field whose tag was the last one read into an extension value
    /// does, from the value viewed as `old` and the reader `old_in` to the value viewed as `new`
    /// and the reader `new_in`, with the result `r`.
    spec fn merged(
        old: Self::V,
        old_in: CodedReader,
        new: Self::V,
        new_in: CodedReader,
        r: read::Result<TryReadValue<()>>,
    ) -> bool;

    /// The parts an extension value viewed as `v` is written as.
    spec fn ext_parts(v: Self::V) -> Seq<(bool, Seq<u8>)>;

    /// Gets the field number of the extension.
    fn field_number(&self) -> (r: FieldNumber)
        ensures
            r@ == Self::num_of(self@),
    ;

    /// Merges the field whose tag was the last one read into the value where it is the
    /// extension's; else nothing is read.
    fn try_merge_from(&mut self, input: &mut CodedReader) -> (r: read::Result<TryReadValue<()>>)
        requires
            old(input).last_tag_view() is Some,
        ensures
            Self::merged(old(self)@, *old(input), final(self)@, *final(input), r),
            Self::num_of(final(self)@) == Self::num_of(old(self)@),
    ;

    /// Adds the size of the extension's fields to the builder.
    fn calculate_size(&self, builder: LengthBuilder) -> (r: Option<LengthBuilder>)
        ensures
            size_added(
                builder@ as int,
                parts_encodable(Self::ext_parts(self@)),
                parts_bytes(Self::ext_parts(self@)).len() as int,
                r,
            ),
    ;

    /// Writes the extension's fields to the output.
    fn write_to(&self, output: &mut CodedWriter) -> (r: WriteResult)
        ensures
            (final(output).written(), r) == parts_written(
                old(output).written(),
                old(output).capacity(),
                Self::ext_parts(self@),
            ),
            final(output).capacity() == old(output).capacity(),
            (*final(final(output).target()))@ == (*final(old(output).target()))@,
    ;

    /// Returns whether the extension's values are initialized.
    fn is_initialized(&self) -> (r: bool);
}

/// An identifier of an extension field: it reads the extension's value from a reader.
pub trait ExtensionIdentifier {
    /// The value of the extension in a message.
    type Entry: AnyExtension;

    /// The field number of the extension.
    spec fn id_num(&self) -> u32;

    /// What trying to read the extension's value, where the last tag read is the extension's,
    /// does from the reader `old_in` to the reader `new_in`, with the result `r`.
    spec fn read(&self, old_in: CodedReader, new_in: CodedReader, r: read::Result<TryReadValue<Self::Entry>>) -> bool;

    /// Gets the field number of the extension.
    fn id_field_number(&self) -> (r: FieldNumber)
        ensures
            r@ == self.id_num(),
    ;

    /// Reads the extension's value where the last tag read is one of the extension's; else
    /// nothing is read.
    fn try_read_value(&self, input: &mut CodedReader) -> (r: read::Result<TryReadValue<Self::Entry>>)
        requires
            old(input).last_tag_view() is Some,
        ensures
            self.read(*old(input), *final(input), r),
            r matches Ok(TryReadValue::Consumed(e)) ==> <Self::Entry as AnyExtension>::num_of(e@) == self.id_num(),
    ;
}

impl<V: Value> View for ExtensionValue<V> {
    type V = (u32, <V::Inner as View>::V);

    open spec fn view(&self) -> (u32, <V::Inner as View>::V) {
        (self.num@, self.value@)
    }
}

impl<V: Value> AnyExtension for ExtensionValue<V> {
    open spec fn num_of(v: (u32, <V::Inner as View>::V)) -> u32 {
        v.0
    }

    open spec fn merged(
        old: (u32, <V::Inner as View>::V),
        old_in: CodedReader,
        new: (u32, <V::Inner as View>::V),
        new_in: CodedReader,
        r: read::Result<TryReadValue<()>>,
    ) -> bool {
        if last_tag_is(old_in.last_tag_view(), old.0, V::spec_wire_type()) {
            match V::decoding(old_in.available()) {
                Ok((n, v)) => r == Ok::<TryReadValue<()>, ReadError>(TryReadValue::Consumed(()))
                    && new == (old.0, v) && moved(old_in, new_in, n),
                Err(e) => r == Err::<TryReadValue<()>, ReadError>(e) && new == old
                    && same_but_position(old_in, new_in),
            }
        } else {
            r == Ok::<TryReadValue<()>, ReadError>(TryReadValue::Yielded) && new == old && new_in == old_in
        }
    }

    open spec fn ext_parts(v: (u32, <V::Inner as View>::V)) -> Seq<(bool, Seq<u8>)> {
        field_parts::<V>(v.0, v.1)
    }

    fn field_number(&self) -> (r: FieldNumber) {
        self.num
    }

    fn try_merge_from(&mut self, input: &mut CodedReader) -> (r: read::Result<TryReadValue<()>>) {
        ExtensionValue::<V>::try_merge_from(self, input)
    }

    fn calculate_size(&self, builder: LengthBuilder) -> (r: Option<LengthBuilder>) {
        proof {
            crate::collections::lemma_field_parts_bytes::<V>(self.num@, self.value@);
        }
        ExtensionValue::<V>::calculate_size(self, builder)
    }

    fn write_to(&self, output: &mut CodedWriter) -> (r: WriteResult) {
        ExtensionValue::<V>::write_to(self, output)
    }

    fn is_initialized(&self) -> (r: bool) {
        ExtensionValue::<V>::is_initialized(self)
    }
}

impl<V: Value> View for RepeatedExtensionValue<V> {
    type V = (u32, Seq<<V::Inner as View>::V>);

    open spec fn view(&self) -> (u32, Seq<<V::Inner as View>::V>) {
        (self.num@, views(self.value@))
    }
}

impl<V: Value> AnyExtension for RepeatedExtensionValue<V> {
    open spec fn num_of(v: (u32, Seq<<V::Inner as View>::V>)) -> u32 {
        v.0
    }

    open spec fn merged(
        old: (u32, Seq<<V::Inner as View>::V>),
        old_in: CodedReader,
        new: (u32, Seq<<V::Inner as View>::V>),
        new_in: CodedReader,
        r: read::Result<TryReadValue<()>>,
    ) -> bool {
        if old_in.last_tag_view() matches Some(t) && repeated_tag_is(t, old.0, V::spec_wire_type()) {
            match <Vec<V::Inner> as RepeatedValue<V>>::entries_read(old_in.available()) {
                Ok((n, es)) => r == Ok::<TryReadValue<()>, ReadError>(TryReadValue::Consumed(()))
                    && new == (old.0, old.1 + es) && moved(old_in, new_in, n),
                Err(e) => r == Err::<TryReadValue<()>, ReadError>(e) && new.0 == old.0
                    && old.1.is_prefix_of(new.1),
            }
        } else {
            r == Ok::<TryReadValue<()>, ReadError>(TryReadValue::Yielded) && new == old && new_in == old_in
        }
    }

    open spec fn ext_parts(v: (u32, Seq<<V::Inner as View>::V>)) -> Seq<(bool, Seq<u8>)> {
        unpacked_parts::<V>(v.0, v.1)
    }

    fn field_number(&self) -> (r: FieldNumber) {
        self.num
    }

    fn try_merge_from(&mut self, input: &mut CodedReader) -> (r: read::Result<TryReadValue<()>>) {
        RepeatedExtensionValue::<V>::try_merge_from(self, input)
    }

    fn calculate_size(&self, builder: LengthBuilder) -> (r: Option<LengthBuilder>) {
        proof {
            <Vec<V::Inner> as RepeatedValue<V>>::lemma_countable(&self.value, self.num@);
        }
        RepeatedExtensionValue::<V>::calculate_size(self, builder)
    }

    fn write_to(&self, output: &mut CodedWriter) -> (r: WriteResult) {
        RepeatedExtensionValue::<V>::write_to(self, output)
    }

    fn is_initialized(&self) -> (r: bool) {
        RepeatedExtensionValue::<V>::is_initialized(self)
    }
}

impl<V: Value> ExtensionIdentifier for Extension<V> where V::Inner: 'static {
    type Entry = ExtensionValue<V>;

    open spec fn id_num(&self) -> u32 {
        self.num_view()
    }

    open spec fn read(&self, old_in: CodedReader, new_in: CodedReader, r: read::Result<TryReadValue<ExtensionValue<V>>>) -> bool {
        if last_tag_is(old_in.last_tag_view(), self.num_view(), V::spec_wire_type()) {
            match V::decoding(old_in.available()) {
                Ok((n, v)) => r matches Ok(TryReadValue::Consumed(e)) && e@ == (self.num_view(), v)
                    && moved(old_in, new_in, n),
                Err(e) => r == Err::<TryReadValue<ExtensionValue<V>>, ReadError>(e)
                    && same_but_position(old_in, new_in),
            }
        } else {
            r matches Ok(TryReadValue::Yielded) && new_in == old_in
        }
    }

    fn id_field_number(&self) -> (r: FieldNumber) {
        self.field_number()
    }

    fn try_read_value(&self, input: &mut CodedReader) -> (r: read::Result<TryReadValue<ExtensionValue<V>>>) {
        Extension::<V>::try_read_value(self, input)
    }
}

impl<V: Value> ExtensionIdentifier for RepeatedExtension<V> {
    type Entry = RepeatedExtensionValue<V>;

    open spec fn id_num(&self) -> u32 {
        self.num_view()
    }

    open spec fn read(&self, old_in: CodedReader, new_in: CodedReader, r: read::Result<TryReadValue<RepeatedExtensionValue<V>>>) -> bool {
        if old_in.last_tag_view() matches Some(t) && repeated_tag_is(t, self.num_view(), V::spec_wire_type()) {
            match <Vec<V::Inner> as RepeatedValue<V>>::entries_read(old_in.available()) {
                Ok((n, es)) => r matches Ok(TryReadValue::Consumed(e)) && e@ == (self.num_view(), es)
                    && moved(old_in, new_in, n),
                Err(e) => r == Err::<TryReadValue<RepeatedExtensionValue<V>>, ReadError>(e),
            }
        } else {
            r matches Ok(TryReadValue::Yielded) && new_in == old_in
        }
    }

    fn id_field_number(&self) -> (r: FieldNumber) {
        self.field_number()
    }

    fn try_read_value(&self, input: &mut CodedReader) -> (r: read::Result<TryReadValue<RepeatedExtensionValue<V>>>) {
        RepeatedExtension::<V>::try_read_value(self, input)
    }
}

/// The error of adding an extension identifier to a registry builder that already holds one
/// with its field number (`set::RegistryBuilder::add_identifier`): the field number both have.
pub struct ExtensionConflict(pub FieldNumber);

} // verus!
