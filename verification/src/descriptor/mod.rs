//! The messages of `descriptor.proto`, which describe protobuf files: their messages,
//! fields, enums and services, and the options on each.

use vstd::prelude::*;
use crate::collections::{
    RepeatedField, RepeatedValue, views, unpacked_parts, packed_parts, packed_fits,
    lemma_unpacked_front, lemma_field_bytes_read, lemma_packed_bytes_read,
    lemma_unpacked_parts_encodable,
};
use crate::collections::unknown_fields::{
    UnknownFieldSet, FieldValue, TryRead, set_parts, unknown_field_read, set_pairs, pairs_parts,
    push_pairs, set_readable, value_readable, field_value_parts, field_value_wire_type,
    lemma_read_value_bytes, lemma_set_pairs, lemma_entries_readable, lemma_merge_into_empty, view_merge,
    view_push,
};
use crate::io::{
    FieldNumber, Length, LengthBuilder, Tag, WireType, varint_bytes, varint_len, tag_value,
    raw_varint32_size, lemma_varint_roundtrip, lemma_tag_value,
};
use crate::io::read::{
    CodedReader, Error as ReadError, Result as ReadResult, varint_read, length_delimited_read,
    eof, same_state, same_config, skips, merge_outcome, lemma_varint_read_len,
    lemma_length_delimited_read_len, lemma_varint_read_encoding, lemma_length_delimited_read_encoding,
};
use crate::io::write::{
    CodedWriter, parts_written, parts_bytes, parts_encodable, lemma_parts_written_append,
    lemma_parts_bytes_append, lemma_ok_unit, Error as WriteError, Result as WriteResult,
};
use crate::raw::{
    self, Value, Packed, tag_bytes, size_added, parts_size, lemma_size_chain, lemma_size_prefix,
    lemma_parts_encodable_two, field_parts, opt_length, entry_head, entry_parts, add_entry_size,
    opt_field_parts, opt_inner_view, add_opt_field, write_opt_field,
};
use crate::reflect::DebugMessage;

pub mod descriptor_proto;
pub mod enum_descriptor_proto;
pub mod field_descriptor_proto;
pub mod field_options;
pub mod file_options;
pub mod generated_code_info;
pub mod method_options;
pub mod source_code_info;
pub mod uninterpreted_option;

verus! {

/// The text of an optional string field, or the empty default.
pub open spec fn text_or_empty(o: Option<Seq<char>>) -> Seq<char> {
    match o {
        Some(s) => s,
        None => Seq::empty(),
    }
}

/// The bytes of an optional bytes field, or the empty default.
pub open spec fn bytes_or_empty(o: Option<Seq<u8>>) -> Seq<u8> {
    match o {
        Some(b) => b,
        None => Seq::empty(),
    }
}

/// The view of an optional value.
pub open spec fn opt_view<T: View>(o: Option<T>) -> Option<T::V> {
    match o {
        Some(v) => Some(v@),
        None => None,
    }
}

/// The view of an optional reference.
pub open spec fn opt_ref_view<T: View>(o: Option<&T>) -> Option<T::V> {
    match o {
        Some(v) => Some(v@),
        None => None,
    }
}


/// The value of a singular field after a message holding `newer` there is merged into one
/// holding `older`: the newer value where there is one, else the older one.
pub open spec fn newer_or<T>(newer: Option<T>, older: Option<T>) -> Option<T> {
    match newer {
        Some(_) => newer,
        None => older,
    }
}

/// The bytes of a message of field `num` whose fields are written as `p`, followed by anything:
/// its tag is read, then its length and the bytes of its fields, taking all the bytes written
/// for it.
pub(crate) proof fn lemma_entry_bytes_read(num: u32, p: Seq<(bool, Seq<u8>)>, after: Seq<u8>)
    requires
        parts_size(p) is Some,
    ensures
        ({
            let s = parts_bytes(entry_parts(num, p)) + after;
            let t = tag_value(num, WireType::LengthDelimited);
            let k = varint_len(t as u64) as int;
            let hl = parts_bytes(entry_parts(num, p)).len() as int;
            &&& varint_read(s) == Ok::<(int, u64), ReadError>((k, t as u64))
            &&& 0 < k <= hl <= s.len()
            &&& length_delimited_read(s.skip(k)) == Ok::<(int, Seq<u8>), ReadError>((hl - k, parts_bytes(p)))
            &&& s.skip(hl) == after
            &&& parts_bytes(p).len() < hl
        }),
{
    let head = entry_head(num, p);
    let b = parts_bytes(p);
    let t = tag_value(num, WireType::LengthDelimited);
    let tb = tag_bytes(num, WireType::LengthDelimited);
    let lb = varint_bytes(b.len() as u64);
    lemma_parts_bytes_append(head, p);
    reveal_with_fuel(parts_bytes, 3);
    assert(head.drop_first().drop_first() =~= Seq::<(bool, Seq<u8>)>::empty());
    assert(parts_bytes(head) =~= tb + lb);
    let s = tb + lb + b + after;
    assert(parts_bytes(entry_parts(num, p)) + after =~= s);
    assert(s =~= tb + (lb + b + after));
    lemma_varint_roundtrip(t as u64);
    lemma_varint_roundtrip(b.len() as u64);
    lemma_varint_read_encoding(t as u64, lb + b + after);
    lemma_length_delimited_read_encoding(b, after);
    assert(s.skip(tb.len() as int) =~= lb + b + after);
    assert(s.skip((tb.len() + lb.len() + b.len()) as int) =~= after);
}

/// An enum of `descriptor.proto`: a value held as an `i32`, which need not be one of the
/// named values.
#[derive(Clone, Copy, PartialEq, Eq, Structural, Debug, Hash)]
pub struct Type(pub i32);

impl View for Type {
    type V = i32;

    open spec fn view(&self) -> i32 {
        self.0
    }
}

impl crate::Enum for Type {
    fn from_i32(v: i32) -> (r: Type) {
        Type(v)
    }

    fn into_i32(self) -> (r: i32) {
        self.0
    }
}

impl Default for Type {
    /// The enum value numbered zero.
    fn default() -> (r: Type)
        ensures
            r@ == 0,
    {
        Type(0)
    }
}

impl Type {
    /// The `TYPE_DOUBLE` value.
    #[allow(non_snake_case)]
    pub fn TYPE_DOUBLE() -> (r: Type)
        ensures
            r@ == 1,
    {
        Type(1)
    }

    /// The `TYPE_FLOAT` value.
    #[allow(non_snake_case)]
    pub fn TYPE_FLOAT() -> (r: Type)
        ensures
            r@ == 2,
    {
        Type(2)
    }

    /// The `TYPE_INT64` value.
    #[allow(non_snake_case)]
    pub fn TYPE_INT64() -> (r: Type)
        ensures
            r@ == 3,
    {
        Type(3)
    }

    /// The `TYPE_UINT64` value.
    #[allow(non_snake_case)]
    pub fn TYPE_UINT64() -> (r: Type)
        ensures
            r@ == 4,
    {
        Type(4)
    }

    /// The `TYPE_INT32` value.
    #[allow(non_snake_case)]
    pub fn TYPE_INT32() -> (r: Type)
        ensures
            r@ == 5,
    {
        Type(5)
    }

    /// The `TYPE_FIXED64` value.
    #[allow(non_snake_case)]
    pub fn TYPE_FIXED64() -> (r: Type)
        ensures
            r@ == 6,
    {
        Type(6)
    }

    /// The `TYPE_FIXED32` value.
    #[allow(non_snake_case)]
    pub fn TYPE_FIXED32() -> (r: Type)
        ensures
            r@ == 7,
    {
        Type(7)
    }

    /// The `TYPE_BOOL` value.
    #[allow(non_snake_case)]
    pub fn TYPE_BOOL() -> (r: Type)
        ensures
            r@ == 8,
    {
        Type(8)
    }

    /// The `TYPE_STRING` value.
    #[allow(non_snake_case)]
    pub fn TYPE_STRING() -> (r: Type)
        ensures
            r@ == 9,
    {
        Type(9)
    }

    /// The `TYPE_GROUP` value.
    #[allow(non_snake_case)]
    pub fn TYPE_GROUP() -> (r: Type)
        ensures
            r@ == 10,
    {
        Type(10)
    }

    /// The `TYPE_MESSAGE` value.
    #[allow(non_snake_case)]
    pub fn TYPE_MESSAGE() -> (r: Type)
        ensures
            r@ == 11,
    {
        Type(11)
    }

    /// The `TYPE_BYTES` value.
    #[allow(non_snake_case)]
    pub fn TYPE_BYTES() -> (r: Type)
        ensures
            r@ == 12,
    {
        Type(12)
    }

    /// The `TYPE_UINT32` value.
    #[allow(non_snake_case)]
    pub fn TYPE_UINT32() -> (r: Type)
        ensures
            r@ == 13,
    {
        Type(13)
    }

    /// The `TYPE_ENUM` value.
    #[allow(non_snake_case)]
    pub fn TYPE_ENUM() -> (r: Type)
        ensures
            r@ == 14,
    {
        Type(14)
    }

    /// The `TYPE_SFIXED32` value.
    #[allow(non_snake_case)]
    pub fn TYPE_SFIXED32() -> (r: Type)
        ensures
            r@ == 15,
    {
        Type(15)
    }

    /// The `TYPE_SFIXED64` value.
    #[allow(non_snake_case)]
    pub fn TYPE_SFIXED64() -> (r: Type)
        ensures
            r@ == 16,
    {
        Type(16)
    }

    /// The `TYPE_SINT32` value.
    #[allow(non_snake_case)]
    pub fn TYPE_SINT32() -> (r: Type)
        ensures
            r@ == 17,
    {
        Type(17)
    }

    /// The `TYPE_SINT64` value.
    #[allow(non_snake_case)]
    pub fn TYPE_SINT64() -> (r: Type)
        ensures
            r@ == 18,
    {
        Type(18)
    }

    /// The name of the value as it is written when debugging: that of the first named value
    /// with its number, or none for a number without a name, which is written as the number.
    pub fn debug_name(self) -> (r: Option<&'static str>)
        ensures
            self@ == 1 ==> (r matches Some(s) && s@ == "TYPE_DOUBLE"@),
            self@ == 2 ==> (r matches Some(s) && s@ == "TYPE_FLOAT"@),
            self@ == 3 ==> (r matches Some(s) && s@ == "TYPE_INT64"@),
            self@ == 4 ==> (r matches Some(s) && s@ == "TYPE_UINT64"@),
            self@ == 5 ==> (r matches Some(s) && s@ == "TYPE_INT32"@),
            self@ == 6 ==> (r matches Some(s) && s@ == "TYPE_FIXED64"@),
            self@ == 7 ==> (r matches Some(s) && s@ == "TYPE_FIXED32"@),
            self@ == 8 ==> (r matches Some(s) && s@ == "TYPE_BOOL"@),
            self@ == 9 ==> (r matches Some(s) && s@ == "TYPE_STRING"@),
            self@ == 10 ==> (r matches Some(s) && s@ == "TYPE_GROUP"@),
            self@ == 11 ==> (r matches Some(s) && s@ == "TYPE_MESSAGE"@),
            self@ == 12 ==> (r matches Some(s) && s@ == "TYPE_BYTES"@),
            self@ == 13 ==> (r matches Some(s) && s@ == "TYPE_UINT32"@),
            self@ == 14 ==> (r matches Some(s) && s@ == "TYPE_ENUM"@),
            self@ == 15 ==> (r matches Some(s) && s@ == "TYPE_SFIXED32"@),
            self@ == 16 ==> (r matches Some(s) && s@ == "TYPE_SFIXED64"@),
            self@ == 17 ==> (r matches Some(s) && s@ == "TYPE_SINT32"@),
            self@ == 18 ==> (r matches Some(s) && s@ == "TYPE_SINT64"@),
            !(self@ == 1 || self@ == 2 || self@ == 3 || self@ == 4 || self@ == 5 || self@ == 6 || self@ == 7 || self@ == 8 || self@ == 9 || self@ == 10 || self@ == 11 || self@ == 12 || self@ == 13 || self@ == 14 || self@ == 15 || self@ == 16 || self@ == 17 || self@ == 18) ==> r is None,
    {
        match self.0 {
            1 => Some("TYPE_DOUBLE"),
            2 => Some("TYPE_FLOAT"),
            3 => Some("TYPE_INT64"),
            4 => Some("TYPE_UINT64"),
            5 => Some("TYPE_INT32"),
            6 => Some("TYPE_FIXED64"),
            7 => Some("TYPE_FIXED32"),
            8 => Some("TYPE_BOOL"),
            9 => Some("TYPE_STRING"),
            10 => Some("TYPE_GROUP"),
            11 => Some("TYPE_MESSAGE"),
            12 => Some("TYPE_BYTES"),
            13 => Some("TYPE_UINT32"),
            14 => Some("TYPE_ENUM"),
            15 => Some("TYPE_SFIXED32"),
            16 => Some("TYPE_SFIXED64"),
            17 => Some("TYPE_SINT32"),
            18 => Some("TYPE_SINT64"),
            _ => None,
        }
    }
}

/// An enum of `descriptor.proto`: a value held as an `i32`, which need not be one of the
/// named values.
#[derive(Clone, Copy, PartialEq, Eq, Structural, Debug, Hash)]
pub struct Label(pub i32);

impl View for Label {
    type V = i32;

    open spec fn view(&self) -> i32 {
        self.0
    }
}

impl crate::Enum for Label {
    fn from_i32(v: i32) -> (r: Label) {
        Label(v)
    }

    fn into_i32(self) -> (r: i32) {
        self.0
    }
}

impl Default for Label {
    /// The enum value numbered zero.
    fn default() -> (r: Label)
        ensures
            r@ == 0,
    {
        Label(0)
    }
}

impl Label {
    /// The `LABEL_OPTIONAL` value.
    #[allow(non_snake_case)]
    pub fn LABEL_OPTIONAL() -> (r: Label)
        ensures
            r@ == 1,
    {
        Label(1)
    }

    /// The `LABEL_REQUIRED` value.
    #[allow(non_snake_case)]
    pub fn LABEL_REQUIRED() -> (r: Label)
        ensures
            r@ == 2,
    {
        Label(2)
    }

    /// The `LABEL_REPEATED` value.
    #[allow(non_snake_case)]
    pub fn LABEL_REPEATED() -> (r: Label)
        ensures
            r@ == 3,
    {
        Label(3)
    }

    /// The name of the value as it is written when debugging: that of the first named value
    /// with its number, or none for a number without a name, which is written as the number.
    pub fn debug_name(self) -> (r: Option<&'static str>)
        ensures
            self@ == 1 ==> (r matches Some(s) && s@ == "LABEL_OPTIONAL"@),
            self@ == 2 ==> (r matches Some(s) && s@ == "LABEL_REQUIRED"@),
            self@ == 3 ==> (r matches Some(s) && s@ == "LABEL_REPEATED"@),
            !(self@ == 1 || self@ == 2 || self@ == 3) ==> r is None,
    {
        match self.0 {
            1 => Some("LABEL_OPTIONAL"),
            2 => Some("LABEL_REQUIRED"),
            3 => Some("LABEL_REPEATED"),
            _ => None,
        }
    }
}

/// An enum of `descriptor.proto`: a value held as an `i32`, which need not be one of the
/// named values.
#[derive(Clone, Copy, PartialEq, Eq, Structural, Debug, Hash)]
pub struct OptimizeMode(pub i32);

impl View for OptimizeMode {
    type V = i32;

    open spec fn view(&self) -> i32 {
        self.0
    }
}

impl crate::Enum for OptimizeMode {
    fn from_i32(v: i32) -> (r: OptimizeMode) {
        OptimizeMode(v)
    }

    fn into_i32(self) -> (r: i32) {
        self.0
    }
}

impl Default for OptimizeMode {
    /// The enum value numbered zero.
    fn default() -> (r: OptimizeMode)
        ensures
            r@ == 0,
    {
        OptimizeMode(0)
    }
}

impl OptimizeMode {
    /// The `SPEED` value.
    #[allow(non_snake_case)]
    pub fn SPEED() -> (r: OptimizeMode)
        ensures
            r@ == 1,
    {
        OptimizeMode(1)
    }

    /// The `CODE_SIZE` value.
    #[allow(non_snake_case)]
    pub fn CODE_SIZE() -> (r: OptimizeMode)
        ensures
            r@ == 2,
    {
        OptimizeMode(2)
    }

    /// The `LITE_RUNTIME` value.
    #[allow(non_snake_case)]
    pub fn LITE_RUNTIME() -> (r: OptimizeMode)
        ensures
            r@ == 3,
    {
        OptimizeMode(3)
    }

    /// The name of the value as it is written when debugging: that of the first named value
    /// with its number, or none for a number without a name, which is written as the number.
    pub fn debug_name(self) -> (r: Option<&'static str>)
        ensures
            self@ == 1 ==> (r matches Some(s) && s@ == "SPEED"@),
            self@ == 2 ==> (r matches Some(s) && s@ == "CODE_SIZE"@),
            self@ == 3 ==> (r matches Some(s) && s@ == "LITE_RUNTIME"@),
            !(self@ == 1 || self@ == 2 || self@ == 3) ==> r is None,
    {
        match self.0 {
            1 => Some("SPEED"),
            2 => Some("CODE_SIZE"),
            3 => Some("LITE_RUNTIME"),
            _ => None,
        }
    }
}

/// An enum of `descriptor.proto`: a value held as an `i32`, which need not be one of the
/// named values.
#[derive(Clone, Copy, PartialEq, Eq, Structural, Debug, Hash)]
pub struct CType(pub i32);

impl View for CType {
    type V = i32;

    open spec fn view(&self) -> i32 {
        self.0
    }
}

impl crate::Enum for CType {
    fn from_i32(v: i32) -> (r: CType) {
        CType(v)
    }

    fn into_i32(self) -> (r: i32) {
        self.0
    }
}

impl Default for CType {
    /// The enum value numbered zero.
    fn default() -> (r: CType)
        ensures
            r@ == 0,
    {
        CType(0)
    }
}

impl CType {
    /// The `STRING` value.
    #[allow(non_snake_case)]
    pub fn STRING() -> (r: CType)
        ensures
            r@ == 0,
    {
        CType(0)
    }

    /// The `CORD` value.
    #[allow(non_snake_case)]
    pub fn CORD() -> (r: CType)
        ensures
            r@ == 1,
    {
        CType(1)
    }

    /// The `STRING_PIECE` value.
    #[allow(non_snake_case)]
    pub fn STRING_PIECE() -> (r: CType)
        ensures
            r@ == 2,
    {
        CType(2)
    }

    /// The name of the value as it is written when debugging: that of the first named value
    /// with its number, or none for a number without a name, which is written as the number.
    pub fn debug_name(self) -> (r: Option<&'static str>)
        ensures
            self@ == 0 ==> (r matches Some(s) && s@ == "STRING"@),
            self@ == 1 ==> (r matches Some(s) && s@ == "CORD"@),
            self@ == 2 ==> (r matches Some(s) && s@ == "STRING_PIECE"@),
            !(self@ == 0 || self@ == 1 || self@ == 2) ==> r is None,
    {
        match self.0 {
            0 => Some("STRING"),
            1 => Some("CORD"),
            2 => Some("STRING_PIECE"),
            _ => None,
        }
    }
}

/// An enum of `descriptor.proto`: a value held as an `i32`, which need not be one of the
/// named values.
#[derive(Clone, Copy, PartialEq, Eq, Structural, Debug, Hash)]
pub struct JSType(pub i32);

impl View for JSType {
    type V = i32;

    open spec fn view(&self) -> i32 {
        self.0
    }
}

impl crate::Enum for JSType {
    fn from_i32(v: i32) -> (r: JSType) {
        JSType(v)
    }

    fn into_i32(self) -> (r: i32) {
        self.0
    }
}

impl Default for JSType {
    /// The enum value numbered zero.
    fn default() -> (r: JSType)
        ensures
            r@ == 0,
    {
        JSType(0)
    }
}

impl JSType {
    /// The `JS_NORMAL` value.
    #[allow(non_snake_case)]
    pub fn JS_NORMAL() -> (r: JSType)
        ensures
            r@ == 0,
    {
        JSType(0)
    }

    /// The `JS_STRING` value.
    #[allow(non_snake_case)]
    pub fn JS_STRING() -> (r: JSType)
        ensures
            r@ == 1,
    {
        JSType(1)
    }

    /// The `JS_NUMBER` value.
    #[allow(non_snake_case)]
    pub fn JS_NUMBER() -> (r: JSType)
        ensures
            r@ == 2,
    {
        JSType(2)
    }

    /// The name of the value as it is written when debugging: that of the first named value
    /// with its number, or none for a number without a name, which is written as the number.
    pub fn debug_name(self) -> (r: Option<&'static str>)
        ensures
            self@ == 0 ==> (r matches Some(s) && s@ == "JS_NORMAL"@),
            self@ == 1 ==> (r matches Some(s) && s@ == "JS_STRING"@),
            self@ == 2 ==> (r matches Some(s) && s@ == "JS_NUMBER"@),
            !(self@ == 0 || self@ == 1 || self@ == 2) ==> r is None,
    {
        match self.0 {
            0 => Some("JS_NORMAL"),
            1 => Some("JS_STRING"),
            2 => Some("JS_NUMBER"),
            _ => None,
        }
    }
}

/// An enum of `descriptor.proto`: a value held as an `i32`, which need not be one of the
/// named values.
#[derive(Clone, Copy, PartialEq, Eq, Structural, Debug, Hash)]
pub struct IdempotencyLevel(pub i32);

impl View for IdempotencyLevel {
    type V = i32;

    open spec fn view(&self) -> i32 {
        self.0
    }
}

impl crate::Enum for IdempotencyLevel {
    fn from_i32(v: i32) -> (r: IdempotencyLevel) {
        IdempotencyLevel(v)
    }

    fn into_i32(self) -> (r: i32) {
        self.0
    }
}

impl Default for IdempotencyLevel {
    /// The enum value numbered zero.
    fn default() -> (r: IdempotencyLevel)
        ensures
            r@ == 0,
    {
        IdempotencyLevel(0)
    }
}

impl IdempotencyLevel {
    /// The `IDEMPOTENCY_UNKNOWN` value.
    #[allow(non_snake_case)]
    pub fn IDEMPOTENCY_UNKNOWN() -> (r: IdempotencyLevel)
        ensures
            r@ == 0,
    {
        IdempotencyLevel(0)
    }

    /// The `NO_SIDE_EFFECTS` value.
    #[allow(non_snake_case)]
    pub fn NO_SIDE_EFFECTS() -> (r: IdempotencyLevel)
        ensures
            r@ == 1,
    {
        IdempotencyLevel(1)
    }

    /// The `IDEMPOTENT` value.
    #[allow(non_snake_case)]
    pub fn IDEMPOTENT() -> (r: IdempotencyLevel)
        ensures
            r@ == 2,
    {
        IdempotencyLevel(2)
    }

    /// The name of the value as it is written when debugging: that of the first named value
    /// with its number, or none for a number without a name, which is written as the number.
    pub fn debug_name(self) -> (r: Option<&'static str>)
        ensures
            self@ == 0 ==> (r matches Some(s) && s@ == "IDEMPOTENCY_UNKNOWN"@),
            self@ == 1 ==> (r matches Some(s) && s@ == "NO_SIDE_EFFECTS"@),
            self@ == 2 ==> (r matches Some(s) && s@ == "IDEMPOTENT"@),
            !(self@ == 0 || self@ == 1 || self@ == 2) ==> r is None,
    {
        match self.0 {
            0 => Some("IDEMPOTENCY_UNKNOWN"),
            1 => Some("NO_SIDE_EFFECTS"),
            2 => Some("IDEMPOTENT"),
            _ => None,
        }
    }
}

/// The `FileDescriptorSet` message of `descriptor.proto`.
#[derive(Debug)]
pub struct FileDescriptorSet {
    file: RepeatedField<FileDescriptorProto>,
    unknown_fields: UnknownFieldSet,
}

/// The view of a `FileDescriptorSet`: its fields, and its unknown fields.
pub struct FileDescriptorSetView {
    /// The `file` field.
    pub file: Seq<FileDescriptorProtoView>,
    /// The unknown fields.
    pub unknown_fields: Seq<(u32, Seq<FieldValue>)>,
}

/// The view of a `FileDescriptorSet` value.
pub closed spec fn file_descriptor_set_view(m: FileDescriptorSet) -> FileDescriptorSetView
{
    FileDescriptorSetView {
        file: file_descriptor_proto_seq_view(m.file@),
        unknown_fields: m.unknown_fields@,
    }
}

/// The view of a `FileDescriptorSet` with no field set.
pub open spec fn file_descriptor_set_default() -> FileDescriptorSetView {
    FileDescriptorSetView {
        file: Seq::empty(),
        unknown_fields: Seq::empty(),
    }
}

impl View for FileDescriptorSet {
    type V = FileDescriptorSetView;

    open spec fn view(&self) -> FileDescriptorSetView {
        file_descriptor_set_view(*self)
    }
}

impl Default for FileDescriptorSet {
    /// A message with no field set.
    fn default() -> (r: FileDescriptorSet)
        ensures
            r@ == file_descriptor_set_default(),
    {
        let r = FileDescriptorSet {
            file: Vec::new(),
            unknown_fields: UnknownFieldSet::new(),
        };
        proof {
            assert(file_descriptor_proto_seq_view(r.file@) =~= Seq::empty());
            assert(r@ =~= file_descriptor_set_default());
        }
        r
    }
}

impl FileDescriptorSet {
    /// Gets the values of the `file` field.
    pub fn file(&self) -> (r: &RepeatedField<FileDescriptorProto>)
        ensures
            file_descriptor_proto_seq_view(r@) == self@.file,
    {
        &self.file
    }

    /// Gets the values of the `file` field for changing them.
    pub fn file_mut(&mut self) -> (r: &mut RepeatedField<FileDescriptorProto>)
        ensures
            file_descriptor_proto_seq_view((*r)@) == old(self)@.file,
            final(self)@ == (FileDescriptorSetView { file: file_descriptor_proto_seq_view((*final(r))@), ..old(self)@ }),
    {
        &mut self.file
    }
}

/// The parts a `FileDescriptorSet` is written as: its fields that are set, in field number order, then its
/// unknown fields.
#[verifier::opaque]
pub open spec fn file_descriptor_set_parts(v: FileDescriptorSetView) -> Seq<(bool, Seq<u8>)>
{
    file_descriptor_proto_seq_parts(1u32, v.file) + (set_parts(v.unknown_fields))
}

/// What reading the field with tag value `t` from the front of `rest` into `v` gives: the
/// number of bytes read and the message after, or the error.
pub open spec fn file_descriptor_set_field_read(v: FileDescriptorSetView, t: u32, rest: Seq<u8>, depth: nat, limit: nat, skip: bool, eg: Option<Tag>) -> ReadResult<(int, FileDescriptorSetView)>
{
    if t == 10u32 {
        match length_delimited_read(rest) { Err(e) => Err(e), Ok((m, b)) => if depth >= limit { Err(ReadError::RecursionLimitExceeded) } else { match file_descriptor_proto_merged(file_descriptor_proto_default(), b, depth + 1, limit, skip, eg) { Ok(y) => Ok((m, FileDescriptorSetView { file: v.file.push(y), ..v })), Err(e) => Err(e) } } }
    } else {
        match unknown_field_read(v.unknown_fields, t, rest, depth, limit, skip, eg) {
            Ok((m, u)) => Ok((m, FileDescriptorSetView { unknown_fields: u, ..v })),
            Err(e) => Err(e),
        }
    }
}

/// What reading all of `s` into `v` as `FileDescriptorSet` fields gives: the message after, or the error.
/// `depth` and `limit` are the reader's depth and recursion limit, `skip` whether it skips
/// unknown fields, and `eg` the end tag of the group it is in.
pub open spec fn file_descriptor_set_merged(v: FileDescriptorSetView, s: Seq<u8>, depth: nat, limit: nat, skip: bool, eg: Option<Tag>) -> ReadResult<FileDescriptorSetView>
    decreases s.len(),
{
    if s.len() == 0 {
        Ok(v)
    } else {
        match varint_read(s) {
            Err(e) => Err(e),
            Ok((n, w)) => if n < 1 || n > s.len() {
                Err(eof())
            } else {
                match file_descriptor_set_field_read(v, w as u32, s.skip(n), depth, limit, skip, eg) {
                    Err(e) => Err(e),
                    Ok((m, v2)) => if m < 0 || n + m > s.len() {
                        Err(eof())
                    } else {
                        file_descriptor_set_merged(v2, s.skip(n + m), depth, limit, skip, eg)
                    },
                }
            },
        }
    }
}

impl FileDescriptorSet {
    /// Gets the unknown fields of the message.
    pub fn unknown_fields(&self) -> (r: &UnknownFieldSet)
        ensures
            r@ == self@.unknown_fields,
    {
        &self.unknown_fields
    }

    /// Gets the unknown fields of the message for changing them.
    pub fn unknown_fields_mut(&mut self) -> (r: &mut UnknownFieldSet)
        ensures
            (*r)@ == old(self)@.unknown_fields,
            final(self)@ == (FileDescriptorSetView { unknown_fields: (*final(r))@, ..old(self)@ }),
    {
        &mut self.unknown_fields
    }

    /// Returns whether the message is initialized: whether all its required fields are set.
    pub fn is_initialized(&self) -> (r: bool)
        ensures
            r,
    {
        if !crate::is_initialized(&self.file) {
            return false;
        }
        true
    }

    /// Calculates the size of the message as it is written: `None` if a part cannot be
    /// written or the size does not fit in a length.
    #[verifier::spinoff_prover]
    pub fn calculate_size(&self) -> (r: Option<Length>)
        ensures
            opt_length(r) == parts_size(file_descriptor_set_parts(self@)),
    {
        let ghost v = self@;
        let ghost all = file_descriptor_set_parts(v);
        let b0 = LengthBuilder::new();
        let ghost d0 = Seq::<(bool, Seq<u8>)>::empty();
        proof {
            reveal(file_descriptor_set_parts);
            assert(all =~= d0 + all);
        }
        let ghost p1 = file_descriptor_proto_seq_parts(1u32, v.file);
        let ghost rest1 = set_parts(v.unknown_fields);
        proof {
            assert(all == d0 + (p1 + rest1));
            assert(d0 + (p1 + rest1) =~= d0 + p1 + rest1);
        }
        let r1 = file_descriptor_proto_values_size(&self.file, b0, FieldNumber::new_unchecked(1));
        proof {
            lemma_size_chain(0, d0, p1, Some(b0), r1);
            if r1 is None {
                lemma_size_chain(0, d0 + p1, rest1, r1, r1);
            }
        }
        let b1 = match r1 {
            Some(b) => b,
            None => return None,
        };
        let ghost d1 = d0 + p1;
        let ghost p2 = set_parts(v.unknown_fields);
        let ghost rest2 = Seq::<(bool, Seq<u8>)>::empty();
        proof {
            assert(all == d1 + p2);
            assert(p2 + rest2 =~= p2);
            assert(d1 + (p2 + rest2) =~= d1 + p2 + rest2);
        }
        let r2 = self.unknown_fields.calculate_size(b1);
        proof {
            lemma_size_chain(0, d1, p2, Some(b1), r2);
            if r2 is None {
                lemma_size_chain(0, d1 + p2, rest2, r2, r2);
            }
        }
        let b2 = match r2 {
            Some(b) => b,
            None => return None,
        };
        let ghost d2 = d1 + p2;
        Some(b2.build())
    }

    /// Writes the message to the writer: its fields that are set, in field number order, then
    /// its unknown fields.
    #[verifier::spinoff_prover]
    pub fn write_to(&self, output: &mut CodedWriter) -> (r: WriteResult)
        ensures
            (final(output).written(), r) == parts_written(old(output).written(), old(output).capacity(), file_descriptor_set_parts(self@)),
            final(output).capacity() == old(output).capacity(),
            (*final(final(output).target()))@ == (*final(old(output).target()))@,
    {
        let ghost v = self@;
        let ghost all = file_descriptor_set_parts(v);
        let ghost start = output.written();
        let ghost cap = output.capacity();
        let ghost d0 = Seq::<(bool, Seq<u8>)>::empty();
        proof {
            reveal(file_descriptor_set_parts);
            assert(all =~= d0 + all);
        }
        let ghost p1 = file_descriptor_proto_seq_parts(1u32, v.file);
        let ghost rest1 = set_parts(v.unknown_fields);
        proof {
            assert(all == d0 + (p1 + rest1));
            assert(d0 + (p1 + rest1) =~= d0 + p1 + rest1);
            lemma_parts_written_append(start, cap, d0, p1);
            lemma_parts_written_append(start, cap, d0 + p1, rest1);
        }
        match write_file_descriptor_proto_values(&self.file, output, FieldNumber::new_unchecked(1)) {
            Ok(()) => {},
            Err(e) => return Err(e),
        }
        let ghost d1 = d0 + p1;
        let ghost p2 = set_parts(v.unknown_fields);
        let ghost rest2 = Seq::<(bool, Seq<u8>)>::empty();
        proof {
            assert(all == d1 + p2);
            assert(p2 + rest2 =~= p2);
            assert(d1 + (p2 + rest2) =~= d1 + p2 + rest2);
            lemma_parts_written_append(start, cap, d1, p2);
            lemma_parts_written_append(start, cap, d1 + p2, rest2);
        }
        match self.unknown_fields.write_to(output) {
            Ok(()) => {},
            Err(e) => return Err(e),
        }
        let ghost d2 = d1 + p2;
        proof {
            assert(all =~= d2 + Seq::<(bool, Seq<u8>)>::empty());
            assert(all == d2);
            lemma_ok_unit(parts_written(start, cap, all).1);
        }
        Ok(())
    }

    /// Reads the value of the field whose tag value `t` was just read into the message.
    #[verifier::spinoff_prover]
    fn merge_field(&mut self, t: u32, input: &mut CodedReader) -> (r: ReadResult<()>)
        ensures
            match file_descriptor_set_field_read(old(self)@, t, old(input).available(), old(input).depth(), old(input).recursion_limit(), skips(*old(input)), old(input).end_group_view()) {
                Ok((m, v2)) => r is Ok && final(self)@ == v2 && m >= 0 && final(input).position()
                    == old(input).position() + m && same_state(*old(input), *final(input)),
                Err(e) => r == Err::<(), ReadError>(e) && same_config(*old(input), *final(input)),
            },
    {
        let rem0 = input.remaining();
        let ghost rest = input.available();
        if t == 10u32 {
            proof {
                lemma_length_delimited_read_len(rest);
            }
            input.set_last_tag(Some(Tag::new(FieldNumber::new_unchecked(1), WireType::LengthDelimited)));
            let mut y = FileDescriptorProto::default();
            match merge_file_descriptor_proto_delimited(&mut y, input) {
                Ok(()) => {},
                Err(e) => return Err(e),
            }
            let ghost old_values = self.file@;
            self.file.push(y);
            proof {
                assert(self.file@.subrange(0, self.file@.len() - 1) =~= old_values);
            }
        } else {
            let tag = match Tag::try_from(t) {
                Ok(tag) => tag,
                Err(_) => return Err(ReadError::InvalidTag(t)),
            };
            input.set_last_tag(Some(tag));
            match self.unknown_fields.try_add_field_from(input) {
                Ok(TryRead::Consumed) => {},
                Ok(TryRead::Yielded) => match input.skip() {
                    Ok(()) => {},
                    Err(e) => return Err(e),
                },
                Err(e) => return Err(e),
            }
        }
        let rem1 = input.remaining();
        Ok(())
    }

    /// Merges the message with fields read from the reader, up to its limit. Scalar fields
    /// read replace those set, message fields are merged, repeated fields are added to,
    /// and unknown fields are stored or skipped as the reader says. On an error the message
    /// may hold some of the fields read before it.
    #[verifier::spinoff_prover]
    #[verifier::rlimit(50)]
    pub fn merge_from(&mut self, input: &mut CodedReader) -> (r: ReadResult<()>)
        ensures
            merge_outcome(file_descriptor_set_merged(old(self)@, old(input).available(), old(input).depth(), old(input).recursion_limit(), skips(*old(input)), old(input).end_group_view()), final(self)@, *old(input), *final(input), r),
    {
        let rem0 = input.remaining();
        let ghost start = *input;
        let ghost total = file_descriptor_set_merged(self@, input.available(), input.depth(), input.recursion_limit(), skips(*input), input.end_group_view());
        loop
            invariant
                start == *old(input),
                same_state(start, *input),
                0 <= start.position() <= input.position(),
                input.limit_end() <= input.input().len(),
                total == file_descriptor_set_merged(old(self)@, start.available(), start.depth(), start.recursion_limit(), skips(start), start.end_group_view()),
                total == file_descriptor_set_merged(self@, input.available(), start.depth(), start.recursion_limit(), skips(start), start.end_group_view()),
            decreases input.available().len(),
        {
            let ghost s = input.available();
            let ghost before = *input;
            let ghost v = self@;
            let t = match input.read_field() {
                Ok(Some(t)) => t,
                Ok(None) => return Ok(()),
                Err(e) => return Err(e),
            };
            let rem1 = input.remaining();
            let ghost n = input.position() - before.position();
            proof {
                lemma_varint_read_len(s);
                assert(input.available() =~= s.skip(n));
            }
            let ghost mid = *input;
            match self.merge_field(t, input) {
                Ok(()) => {},
                Err(e) => return Err(e),
            }
            let rem2 = input.remaining();
            proof {
                let m = input.position() - mid.position();
                assert(input.available() =~= s.skip(n + m));
            }
        }
    }
}

impl crate::Message for FileDescriptorSet {
    open spec fn merged(v: FileDescriptorSetView, s: Seq<u8>, depth: nat, limit: nat, skip: bool, eg: Option<Tag>) -> ReadResult<FileDescriptorSetView> {
        file_descriptor_set_merged(v, s, depth, limit, skip, eg)
    }

    open spec fn parts(v: FileDescriptorSetView) -> Seq<(bool, Seq<u8>)> {
        file_descriptor_set_parts(v)
    }

    open spec fn initialized(v: FileDescriptorSetView) -> bool {
        true
    }

    open spec fn unknown_fields_of(v: FileDescriptorSetView) -> Seq<(u32, Seq<FieldValue>)> {
        v.unknown_fields
    }

    open spec fn with_unknown_fields(v: FileDescriptorSetView, u: Seq<(u32, Seq<FieldValue>)>) -> FileDescriptorSetView {
        FileDescriptorSetView { unknown_fields: u, ..v }
    }

    fn merge_from(&mut self, input: &mut CodedReader) -> (r: ReadResult<()>) {
        FileDescriptorSet::merge_from(self, input)
    }

    fn calculate_size(&self) -> (r: Option<Length>) {
        FileDescriptorSet::calculate_size(self)
    }

    fn write_to(&self, output: &mut CodedWriter) -> (r: WriteResult) {
        FileDescriptorSet::write_to(self, output)
    }

    fn is_initialized(&self) -> (r: bool) {
        FileDescriptorSet::is_initialized(self)
    }

    fn unknown_fields(&self) -> (r: &UnknownFieldSet) {
        FileDescriptorSet::unknown_fields(self)
    }

    fn unknown_fields_mut(&mut self) -> (r: &mut UnknownFieldSet) {
        FileDescriptorSet::unknown_fields_mut(self)
    }
}

impl DebugMessage for FileDescriptorSet {
    open spec fn spec_full_name() -> Seq<char> {
        "google.protobuf.FileDescriptorSet"@
    }

    open spec fn spec_name() -> Seq<char> {
        "FileDescriptorSet"@
    }

    fn full_name() -> (r: &'static str) {
        "google.protobuf.FileDescriptorSet"
    }

    fn name() -> (r: &'static str) {
        "FileDescriptorSet"
    }
}

/// Whether `t` is the tag of a field a `FileDescriptorSet` reads.
pub open spec fn file_descriptor_set_known_tag(t: u32) -> bool {
    t == 10u32
}

/// Whether a `FileDescriptorSet` is read back as it is written, at nesting depth `depth` of a reader with
/// recursion limit `limit`: its messages are read back as written one level deeper, within
/// the limit; and its unknown fields are read back as written, none with the tag of one of
/// its fields.
pub open spec fn file_descriptor_set_roundtrips(v: FileDescriptorSetView, depth: nat, limit: nat) -> bool
{
    &&& (v.file.len() > 0 ==> depth < limit)
    &&& forall|i: int| 0 <= i < v.file.len() ==> file_descriptor_proto_roundtrips(#[trigger] v.file[i], depth + 1, limit)
    &&& set_readable(v.unknown_fields)
    &&& forall|k: int| 0 <= k < set_pairs(v.unknown_fields).len() ==> !file_descriptor_set_known_tag(tag_value(
        #[trigger] set_pairs(v.unknown_fields)[k].0,
        field_value_wire_type(set_pairs(v.unknown_fields)[k].1),
    ))
}

/// Reading a `FileDescriptorSet` field whose tag is read from the front of `s` and whose value is read after
/// it continues with the rest of `s`.
proof fn lemma_file_descriptor_set_step(v: FileDescriptorSetView, s: Seq<u8>, k: int, t: u32, m: int, v2: FileDescriptorSetView, depth: nat, limit: nat)
    requires
        varint_read(s) == Ok::<(int, u64), ReadError>((k, t as u64)),
        1 <= k <= s.len(),
        file_descriptor_set_field_read(v, t, s.skip(k), depth, limit, false, None) == Ok::<(int, FileDescriptorSetView), ReadError>((m, v2)),
        0 <= m,
        k + m <= s.len(),
    ensures
        file_descriptor_set_merged(v, s, depth, limit, false, None) == file_descriptor_set_merged(v2, s.skip(k + m), depth, limit, false, None),
{
    assert((t as u64) as u32 == t);
}

/// Reading the entries of `FileDescriptorProto` values written as field `file` of a `FileDescriptorSet` adds the values.
#[verifier::spinoff_prover]
#[verifier::rlimit(60)]
proof fn lemma_file_descriptor_set_read_file(v: FileDescriptorSetView, ys: Seq<FileDescriptorProtoView>, rest: Seq<u8>, depth: nat, limit: nat)
    requires
        parts_encodable(file_descriptor_proto_seq_parts(1u32, ys)),
        ys.len() > 0 ==> depth < limit,
        forall|i: int| 0 <= i < ys.len() ==> file_descriptor_proto_roundtrips(#[trigger] ys[i], depth + 1, limit),
    ensures
        file_descriptor_set_merged(v, parts_bytes(file_descriptor_proto_seq_parts(1u32, ys)) + rest, depth, limit, false, None) == file_descriptor_set_merged(
            FileDescriptorSetView { file: v.file + ys, ..v },
            rest,
            depth, limit, false, None,
        ),
    decreases ys.len(),
{
    if ys.len() == 0 {
        assert(parts_bytes(file_descriptor_proto_seq_parts(1u32, ys)) + rest =~= rest);
        assert(v.file + ys =~= v.file);
    } else {
        let y = ys[0];
        let tail = ys.drop_first();
        assert forall|i: int| 0 <= i < tail.len() implies file_descriptor_proto_roundtrips(#[trigger] tail[i], depth + 1, limit) by {
            assert(tail[i] == ys[i + 1]);
        }
        lemma_file_descriptor_proto_seq_parts_front(1u32, ys);
        let ep = entry_parts(1u32, file_descriptor_proto_parts(y));
        lemma_parts_encodable_two(ep, file_descriptor_proto_seq_parts(1u32, tail));
        lemma_parts_bytes_append(ep, file_descriptor_proto_seq_parts(1u32, tail));
        assert(ep[1].0);
        let after = parts_bytes(file_descriptor_proto_seq_parts(1u32, tail)) + rest;
        let s = parts_bytes(file_descriptor_proto_seq_parts(1u32, ys)) + rest;
        assert(s =~= parts_bytes(ep) + after);
        lemma_entry_bytes_read(1u32, file_descriptor_proto_parts(y), after);
        lemma_tag_value(1u32, WireType::LengthDelimited);
        lemma_file_descriptor_proto_roundtrip(y, depth + 1, limit);
        let hl = parts_bytes(ep).len() as int;
        let k = varint_len(10u64) as int;
        let v2 = FileDescriptorSetView { file: v.file.push(y), ..v };
        lemma_file_descriptor_set_step(v, s, k, 10u32, hl - k, v2, depth, limit);
        lemma_file_descriptor_set_read_file(v2, tail, rest, depth, limit);
        assert(v.file.push(y) + tail =~= v.file + ys);
    }
}

/// Reading unknown field values written one after the other into a `FileDescriptorSet`, none with the tag
/// of one of its fields, adds them to its unknown fields.
proof fn lemma_file_descriptor_set_read_unknown(v: FileDescriptorSetView, ps: Seq<(u32, FieldValue)>, rest: Seq<u8>, depth: nat, limit: nat)
    requires
        forall|k: int| 0 <= k < ps.len() ==> value_readable(#[trigger] ps[k].0, ps[k].1) && !file_descriptor_set_known_tag(
            tag_value(ps[k].0, field_value_wire_type(ps[k].1)),
        ),
    ensures
        file_descriptor_set_merged(v, parts_bytes(pairs_parts(ps)) + rest, depth, limit, false, None) == file_descriptor_set_merged(
            FileDescriptorSetView { unknown_fields: push_pairs(v.unknown_fields, ps), ..v },
            rest,
            depth, limit, false, None,
        ),
    decreases ps.len(),
{
    if ps.len() == 0 {
        assert(parts_bytes(pairs_parts(ps)) + rest =~= rest);
    } else {
        let n = ps[0].0;
        let fv = ps[0].1;
        let tail = ps.drop_first();
        assert forall|k: int| 0 <= k < tail.len() implies value_readable(#[trigger] tail[k].0, tail[k].1) && !file_descriptor_set_known_tag(
            tag_value(tail[k].0, field_value_wire_type(tail[k].1)),
        ) by {
            assert(tail[k] == ps[k + 1]);
        }
        assert(value_readable(ps[0].0, ps[0].1));
        lemma_parts_bytes_append(field_value_parts(n, fv), pairs_parts(tail));
        let after = parts_bytes(pairs_parts(tail)) + rest;
        let s = parts_bytes(pairs_parts(ps)) + rest;
        assert(s =~= parts_bytes(field_value_parts(n, fv)) + after);
        lemma_read_value_bytes(n, fv, after);
        let t = tag_value(n, field_value_wire_type(fv));
        let hl = parts_bytes(field_value_parts(n, fv)).len() as int;
        let k = varint_len(t as u64) as int;
        let v2 = FileDescriptorSetView { unknown_fields: view_push(v.unknown_fields, n, fv), ..v };
        lemma_file_descriptor_set_step(v, s, k, t, hl - k, v2, depth, limit);
        lemma_file_descriptor_set_read_unknown(v2, tail, rest, depth, limit);
    }
}

/// The writability of the parts of a `FileDescriptorSet` is that of each field's parts.
proof fn lemma_file_descriptor_set_parts_encodable(v: FileDescriptorSetView)
    ensures
        parts_encodable(file_descriptor_set_parts(v)) == (parts_encodable(file_descriptor_proto_seq_parts(1u32, v.file)) && parts_encodable(set_parts(v.unknown_fields))),
{
    reveal(file_descriptor_set_parts);
    let p0 = file_descriptor_proto_seq_parts(1u32, v.file);
    let p1 = set_parts(v.unknown_fields);
    let q1 = p1;
    let q0 = p0 + q1;
    lemma_parts_encodable_two(p0, q1);
    assert(file_descriptor_set_parts(v) == q0);
}

/// The bytes of the parts of a `FileDescriptorSet` are those of each field's parts, one after the other.
proof fn lemma_file_descriptor_set_parts_bytes(v: FileDescriptorSetView)
    ensures
        parts_bytes(file_descriptor_set_parts(v)) == parts_bytes(file_descriptor_proto_seq_parts(1u32, v.file)) + parts_bytes(set_parts(v.unknown_fields)),
{
    reveal(file_descriptor_set_parts);
    let p0 = file_descriptor_proto_seq_parts(1u32, v.file);
    let p1 = set_parts(v.unknown_fields);
    let q1 = p1;
    let q0 = p0 + q1;
    lemma_parts_bytes_append(p0, q1);
    assert(file_descriptor_set_parts(v) == q0);
}

/// The message a `FileDescriptorSet` `d` becomes when `v` is merged into it: each field `v` holds once
/// replaces the one `d` holds, the values of each repeated field of `v` follow those of `d`,
/// and the unknown fields of `v` are added to those of `d`, field number by field number.
pub open spec fn file_descriptor_set_merge_view(d: FileDescriptorSetView, v: FileDescriptorSetView) -> FileDescriptorSetView {
    FileDescriptorSetView { file: d.file + v.file, unknown_fields: view_merge(d.unknown_fields, v.unknown_fields) }
}

/// Reading the bytes of the parts of a `FileDescriptorSet` `v`, field by field, into `d` merges `v` into `d`.
#[verifier::spinoff_prover]
#[verifier::rlimit(60)]
proof fn lemma_file_descriptor_set_merge_all(d: FileDescriptorSetView, v: FileDescriptorSetView, depth: nat, limit: nat)
    requires
        parts_encodable(file_descriptor_proto_seq_parts(1u32, v.file)),
        file_descriptor_set_roundtrips(v, depth, limit),
        parts_bytes(file_descriptor_set_parts(v)) == parts_bytes(file_descriptor_proto_seq_parts(1u32, v.file)) + parts_bytes(set_parts(v.unknown_fields)),
    ensures
        file_descriptor_set_merged(d, parts_bytes(file_descriptor_set_parts(v)), depth, limit, false, None) == Ok::<FileDescriptorSetView, ReadError>(file_descriptor_set_merge_view(d, v)),
{
    let p0 = file_descriptor_proto_seq_parts(1u32, v.file);
    let p1 = set_parts(v.unknown_fields);
    let b0 = parts_bytes(p0);
    let b1 = parts_bytes(p1);
    let r1 = b1;
    let r0 = b0 + r1;
    let d0 = d;
    let d1 = FileDescriptorSetView { file: d.file + v.file, ..d0 };
    assert(file_descriptor_set_merged(d0, r0, depth, limit, false, None) == file_descriptor_set_merged(d1, r1, depth, limit, false, None)) by {
        lemma_file_descriptor_set_read_file(d0, v.file, r1, depth, limit);
        assert(FileDescriptorSetView { file: d0.file + v.file, ..d0 } == d1);
    }
    let ps = set_pairs(v.unknown_fields);
    assert(file_descriptor_set_merged(d1, r1, depth, limit, false, None) == Ok::<FileDescriptorSetView, ReadError>(file_descriptor_set_merge_view(d, v))) by {
        lemma_set_pairs(v.unknown_fields, d.unknown_fields);
        lemma_entries_readable(v.unknown_fields);
        assert forall|k: int| 0 <= k < ps.len() implies value_readable(#[trigger] ps[k].0, ps[k].1) && !file_descriptor_set_known_tag(
            tag_value(ps[k].0, field_value_wire_type(ps[k].1)),
        ) by {
            assert(!file_descriptor_set_known_tag(tag_value(set_pairs(v.unknown_fields)[k].0, field_value_wire_type(set_pairs(v.unknown_fields)[k].1))));
        }
        lemma_file_descriptor_set_read_unknown(d1, ps, Seq::empty(), depth, limit);
        assert(b1 + Seq::<u8>::empty() =~= b1);
        let dl = FileDescriptorSetView { unknown_fields: push_pairs(d1.unknown_fields, ps), ..d1 };
        assert(dl == file_descriptor_set_merge_view(d, v));
    }
}

/// Reading the bytes of the parts of a `FileDescriptorSet`, field by field, gives the message back.
proof fn lemma_file_descriptor_set_read_all(v: FileDescriptorSetView, depth: nat, limit: nat)
    requires
        parts_encodable(file_descriptor_proto_seq_parts(1u32, v.file)),
        file_descriptor_set_roundtrips(v, depth, limit),
        parts_bytes(file_descriptor_set_parts(v)) == parts_bytes(file_descriptor_proto_seq_parts(1u32, v.file)) + parts_bytes(set_parts(v.unknown_fields)),
    ensures
        file_descriptor_set_merged(file_descriptor_set_default(), parts_bytes(file_descriptor_set_parts(v)), depth, limit, false, None) == Ok::<FileDescriptorSetView, ReadError>(v),
{
    lemma_file_descriptor_set_merge_all(file_descriptor_set_default(), v, depth, limit);
    lemma_entries_readable(v.unknown_fields);
    lemma_merge_into_empty(v.unknown_fields);
    assert(Seq::empty() + v.file =~= v.file);
    assert(file_descriptor_set_merge_view(file_descriptor_set_default(), v) == v);
}

/// Merging what a `FileDescriptorSet` `v` writes into a message `d` merges `v` into `d`: each field `v`
/// holds replaces the one `d` holds, repeated values follow those `d` holds, and unknown fields
/// are added to those of `d`, where `d` holds none of the message fields `v` holds (those are
/// merged into each other), at nesting depth `depth` of a reader with recursion limit `limit`
/// that keeps unknown fields, outside any group, where `v` is read back as written.
pub proof fn lemma_file_descriptor_set_merge_written(d: FileDescriptorSetView, v: FileDescriptorSetView, depth: nat, limit: nat)
    requires
        parts_encodable(file_descriptor_set_parts(v)),
        file_descriptor_set_roundtrips(v, depth, limit),
    ensures
        file_descriptor_set_merged(d, parts_bytes(file_descriptor_set_parts(v)), depth, limit, false, None) == Ok::<FileDescriptorSetView, ReadError>(file_descriptor_set_merge_view(d, v)),
{
    lemma_file_descriptor_set_parts_encodable(v);
    lemma_file_descriptor_set_parts_bytes(v);
    lemma_file_descriptor_set_merge_all(d, v, depth, limit);
}

/// A `FileDescriptorSet` is read back as it is written: merging the bytes of its parts into a default
/// message, at nesting depth `depth` of a reader with recursion limit `limit` that keeps
/// unknown fields, outside any group, gives the message back, where it is read back as written.
pub proof fn lemma_file_descriptor_set_roundtrip(v: FileDescriptorSetView, depth: nat, limit: nat)
    requires
        parts_encodable(file_descriptor_set_parts(v)),
        file_descriptor_set_roundtrips(v, depth, limit),
    ensures
        file_descriptor_set_merged(file_descriptor_set_default(), parts_bytes(file_descriptor_set_parts(v)), depth, limit, false, None) == Ok::<FileDescriptorSetView, ReadError>(v),
{
    lemma_file_descriptor_set_parts_encodable(v);
    lemma_file_descriptor_set_parts_bytes(v);
    lemma_file_descriptor_set_read_all(v, depth, limit);
}

/// The `FileDescriptorProto` message of `descriptor.proto`.
#[derive(Debug)]
pub struct FileDescriptorProto {
    name: Option<String>,
    package: Option<String>,
    dependency: RepeatedField<String>,
    public_dependency: RepeatedField<i32>,
    weak_dependency: RepeatedField<i32>,
    message_type: RepeatedField<DescriptorProto>,
    enum_type: RepeatedField<EnumDescriptorProto>,
    service: RepeatedField<ServiceDescriptorProto>,
    extension: RepeatedField<FieldDescriptorProto>,
    options: Option<FileOptions>,
    source_code_info: Option<SourceCodeInfo>,
    syntax: Option<String>,
    unknown_fields: UnknownFieldSet,
}

/// The view of a `FileDescriptorProto`: its fields, and its unknown fields.
pub struct FileDescriptorProtoView {
    /// The `name` field.
    pub name: Option<Seq<char>>,
    /// The `package` field.
    pub package: Option<Seq<char>>,
    /// The `dependency` field.
    pub dependency: Seq<Seq<char>>,
    /// The `public_dependency` field.
    pub public_dependency: Seq<i32>,
    /// The `weak_dependency` field.
    pub weak_dependency: Seq<i32>,
    /// The `message_type` field.
    pub message_type: Seq<DescriptorProtoView>,
    /// The `enum_type` field.
    pub enum_type: Seq<EnumDescriptorProtoView>,
    /// The `service` field.
    pub service: Seq<ServiceDescriptorProtoView>,
    /// The `extension` field.
    pub extension: Seq<FieldDescriptorProtoView>,
    /// The `options` field.
    pub options: Option<FileOptionsView>,
    /// The `source_code_info` field.
    pub source_code_info: Option<SourceCodeInfoView>,
    /// The `syntax` field.
    pub syntax: Option<Seq<char>>,
    /// The unknown fields.
    pub unknown_fields: Seq<(u32, Seq<FieldValue>)>,
}

/// The view of a `FileDescriptorProto` value.
pub closed spec fn file_descriptor_proto_view(m: FileDescriptorProto) -> FileDescriptorProtoView
{
    FileDescriptorProtoView {
        name: opt_view(m.name),
        package: opt_view(m.package),
        dependency: views(m.dependency@),
        public_dependency: views(m.public_dependency@),
        weak_dependency: views(m.weak_dependency@),
        message_type: descriptor_proto_seq_view(m.message_type@),
        enum_type: enum_descriptor_proto_seq_view(m.enum_type@),
        service: service_descriptor_proto_seq_view(m.service@),
        extension: field_descriptor_proto_seq_view(m.extension@),
        options: match m.options { Some(x) => Some(file_options_view(x)), None => None },
        source_code_info: match m.source_code_info { Some(x) => Some(source_code_info_view(x)), None => None },
        syntax: opt_view(m.syntax),
        unknown_fields: m.unknown_fields@,
    }
}

/// The views of a run of `FileDescriptorProto` values.
pub closed spec fn file_descriptor_proto_seq_view(s: Seq<FileDescriptorProto>) -> Seq<FileDescriptorProtoView>
    decreases s,
{
    if s.len() == 0 {
        Seq::empty()
    } else {
        file_descriptor_proto_seq_view(s.subrange(0, s.len() - 1)).push(file_descriptor_proto_view(s[s.len() - 1]))
    }
}

/// The view of a `FileDescriptorProto` with no field set.
pub open spec fn file_descriptor_proto_default() -> FileDescriptorProtoView {
    FileDescriptorProtoView {
        name: None,
        package: None,
        dependency: Seq::empty(),
        public_dependency: Seq::empty(),
        weak_dependency: Seq::empty(),
        message_type: Seq::empty(),
        enum_type: Seq::empty(),
        service: Seq::empty(),
        extension: Seq::empty(),
        options: None,
        source_code_info: None,
        syntax: None,
        unknown_fields: Seq::empty(),
    }
}

impl View for FileDescriptorProto {
    type V = FileDescriptorProtoView;

    open spec fn view(&self) -> FileDescriptorProtoView {
        file_descriptor_proto_view(*self)
    }
}

impl Default for FileDescriptorProto {
    /// A message with no field set.
    fn default() -> (r: FileDescriptorProto)
        ensures
            r@ == file_descriptor_proto_default(),
    {
        let r = FileDescriptorProto {
            name: None,
            package: None,
            dependency: Vec::new(),
            public_dependency: Vec::new(),
            weak_dependency: Vec::new(),
            message_type: Vec::new(),
            enum_type: Vec::new(),
            service: Vec::new(),
            extension: Vec::new(),
            options: None,
            source_code_info: None,
            syntax: None,
            unknown_fields: UnknownFieldSet::new(),
        };
        proof {
            assert(views(r.dependency@) =~= Seq::empty());
            assert(views(r.public_dependency@) =~= Seq::empty());
            assert(views(r.weak_dependency@) =~= Seq::empty());
            assert(descriptor_proto_seq_view(r.message_type@) =~= Seq::empty());
            assert(enum_descriptor_proto_seq_view(r.enum_type@) =~= Seq::empty());
            assert(service_descriptor_proto_seq_view(r.service@) =~= Seq::empty());
            assert(field_descriptor_proto_seq_view(r.extension@) =~= Seq::empty());
            assert(r@ =~= file_descriptor_proto_default());
        }
        r
    }
}

impl FileDescriptorProto {
    /// Gets the `name` field, or its default, the empty string.
    pub fn name(&self) -> (r: &str)
        ensures
            r@ == text_or_empty(self@.name),
    {
        proof {
            reveal_strlit("");
        }
        match &self.name {
            Some(s) => s.as_str(),
            None => "",
        }
    }

    /// Gets the `name` field if it is set.
    pub fn name_option(&self) -> (r: Option<&String>)
        ensures
            opt_ref_view(r) == self@.name,
    {
        self.name.as_ref()
    }

    /// Gets the `name` field for changing it, setting it to its type's default first if it
    /// is not set.
    pub fn name_mut(&mut self) -> (r: &mut String)
        ensures
            (*r)@ == old(self)@.name.unwrap_or(Seq::<char>::empty()),
            final(self)@ == (FileDescriptorProtoView { name: Some((*final(r))@), ..old(self)@ }),
    {
        self.name.get_or_insert(String::new())
    }

    /// Returns whether the `name` field is set.
    pub fn has_name(&self) -> (r: bool)
        ensures
            r == self@.name is Some,
    {
        self.name.is_some()
    }

    /// Sets the `name` field.
    pub fn set_name(&mut self, value: String)
        ensures
            final(self)@ == (FileDescriptorProtoView { name: Some(value@), ..old(self)@ }),
    {
        self.name = Some(value);
    }

    /// Takes the `name` field out, leaving it unset.
    pub fn take_name(&mut self) -> (r: Option<String>)
        ensures
            opt_view(r) == old(self)@.name,
            final(self)@ == (FileDescriptorProtoView { name: None, ..old(self)@ }),
    {
        self.name.take()
    }

    /// Clears the `name` field, leaving it unset.
    pub fn clear_name(&mut self)
        ensures
            final(self)@ == (FileDescriptorProtoView { name: None, ..old(self)@ }),
    {
        self.name = None;
    }

    /// Gets the `package` field, or its default, the empty string.
    pub fn package(&self) -> (r: &str)
        ensures
            r@ == text_or_empty(self@.package),
    {
        proof {
            reveal_strlit("");
        }
        match &self.package {
            Some(s) => s.as_str(),
            None => "",
        }
    }

    /// Gets the `package` field if it is set.
    pub fn package_option(&self) -> (r: Option<&String>)
        ensures
            opt_ref_view(r) == self@.package,
    {
        self.package.as_ref()
    }

    /// Gets the `package` field for changing it, setting it to its type's default first if it
    /// is not set.
    pub fn package_mut(&mut self) -> (r: &mut String)
        ensures
            (*r)@ == old(self)@.package.unwrap_or(Seq::<char>::empty()),
            final(self)@ == (FileDescriptorProtoView { package: Some((*final(r))@), ..old(self)@ }),
    {
        self.package.get_or_insert(String::new())
    }

    /// Returns whether the `package` field is set.
    pub fn has_package(&self) -> (r: bool)
        ensures
            r == self@.package is Some,
    {
        self.package.is_some()
    }

    /// Sets the `package` field.
    pub fn set_package(&mut self, value: String)
        ensures
            final(self)@ == (FileDescriptorProtoView { package: Some(value@), ..old(self)@ }),
    {
        self.package = Some(value);
    }

    /// Takes the `package` field out, leaving it unset.
    pub fn take_package(&mut self) -> (r: Option<String>)
        ensures
            opt_view(r) == old(self)@.package,
            final(self)@ == (FileDescriptorProtoView { package: None, ..old(self)@ }),
    {
        self.package.take()
    }

    /// Clears the `package` field, leaving it unset.
    pub fn clear_package(&mut self)
        ensures
            final(self)@ == (FileDescriptorProtoView { package: None, ..old(self)@ }),
    {
        self.package = None;
    }

    /// Gets the values of the `dependency` field.
    pub fn dependency(&self) -> (r: &RepeatedField<String>)
        ensures
            views(r@) == self@.dependency,
    {
        &self.dependency
    }

    /// Gets the values of the `dependency` field for changing them.
    pub fn dependency_mut(&mut self) -> (r: &mut RepeatedField<String>)
        ensures
            views((*r)@) == old(self)@.dependency,
            final(self)@ == (FileDescriptorProtoView { dependency: views((*final(r))@), ..old(self)@ }),
    {
        &mut self.dependency
    }

    /// Gets the values of the `public_dependency` field.
    pub fn public_dependency(&self) -> (r: &RepeatedField<i32>)
        ensures
            views(r@) == self@.public_dependency,
    {
        &self.public_dependency
    }

    /// Gets the values of the `public_dependency` field for changing them.
    pub fn public_dependency_mut(&mut self) -> (r: &mut RepeatedField<i32>)
        ensures
            views((*r)@) == old(self)@.public_dependency,
            final(self)@ == (FileDescriptorProtoView { public_dependency: views((*final(r))@), ..old(self)@ }),
    {
        &mut self.public_dependency
    }

    /// Gets the values of the `weak_dependency` field.
    pub fn weak_dependency(&self) -> (r: &RepeatedField<i32>)
        ensures
            views(r@) == self@.weak_dependency,
    {
        &self.weak_dependency
    }

    /// Gets the values of the `weak_dependency` field for changing them.
    pub fn weak_dependency_mut(&mut self) -> (r: &mut RepeatedField<i32>)
        ensures
            views((*r)@) == old(self)@.weak_dependency,
            final(self)@ == (FileDescriptorProtoView { weak_dependency: views((*final(r))@), ..old(self)@ }),
    {
        &mut self.weak_dependency
    }

    /// Gets the values of the `message_type` field.
    pub fn message_type(&self) -> (r: &RepeatedField<DescriptorProto>)
        ensures
            descriptor_proto_seq_view(r@) == self@.message_type,
    {
        &self.message_type
    }

    /// Gets the values of the `message_type` field for changing them.
    pub fn message_type_mut(&mut self) -> (r: &mut RepeatedField<DescriptorProto>)
        ensures
            descriptor_proto_seq_view((*r)@) == old(self)@.message_type,
            final(self)@ == (FileDescriptorProtoView { message_type: descriptor_proto_seq_view((*final(r))@), ..old(self)@ }),
    {
        &mut self.message_type
    }

    /// Gets the values of the `enum_type` field.
    pub fn enum_type(&self) -> (r: &RepeatedField<EnumDescriptorProto>)
        ensures
            enum_descriptor_proto_seq_view(r@) == self@.enum_type,
    {
        &self.enum_type
    }

    /// Gets the values of the `enum_type` field for changing them.
    pub fn enum_type_mut(&mut self) -> (r: &mut RepeatedField<EnumDescriptorProto>)
        ensures
            enum_descriptor_proto_seq_view((*r)@) == old(self)@.enum_type,
            final(self)@ == (FileDescriptorProtoView { enum_type: enum_descriptor_proto_seq_view((*final(r))@), ..old(self)@ }),
    {
        &mut self.enum_type
    }

    /// Gets the values of the `service` field.
    pub fn service(&self) -> (r: &RepeatedField<ServiceDescriptorProto>)
        ensures
            service_descriptor_proto_seq_view(r@) == self@.service,
    {
        &self.service
    }

    /// Gets the values of the `service` field for changing them.
    pub fn service_mut(&mut self) -> (r: &mut RepeatedField<ServiceDescriptorProto>)
        ensures
            service_descriptor_proto_seq_view((*r)@) == old(self)@.service,
            final(self)@ == (FileDescriptorProtoView { service: service_descriptor_proto_seq_view((*final(r))@), ..old(self)@ }),
    {
        &mut self.service
    }

    /// Gets the values of the `extension` field.
    pub fn extension(&self) -> (r: &RepeatedField<FieldDescriptorProto>)
        ensures
            field_descriptor_proto_seq_view(r@) == self@.extension,
    {
        &self.extension
    }

    /// Gets the values of the `extension` field for changing them.
    pub fn extension_mut(&mut self) -> (r: &mut RepeatedField<FieldDescriptorProto>)
        ensures
            field_descriptor_proto_seq_view((*r)@) == old(self)@.extension,
            final(self)@ == (FileDescriptorProtoView { extension: field_descriptor_proto_seq_view((*final(r))@), ..old(self)@ }),
    {
        &mut self.extension
    }

    /// Gets the `options` field if it is set.
    pub fn options_option(&self) -> (r: Option<&FileOptions>)
        ensures
            opt_ref_view(r) == self@.options,
    {
        self.options.as_ref()
    }

    /// Gets the `options` field for changing it, setting it to its type's default first if it
    /// is not set.
    pub fn options_mut(&mut self) -> (r: &mut FileOptions)
        ensures
            (*r)@ == old(self)@.options.unwrap_or(file_options_default()),
            final(self)@ == (FileDescriptorProtoView { options: Some((*final(r))@), ..old(self)@ }),
    {
        self.options.get_or_insert(FileOptions::default())
    }

    /// Returns whether the `options` field is set.
    pub fn has_options(&self) -> (r: bool)
        ensures
            r == self@.options is Some,
    {
        self.options.is_some()
    }

    /// Sets the `options` field.
    pub fn set_options(&mut self, value: FileOptions)
        ensures
            final(self)@ == (FileDescriptorProtoView { options: Some(value@), ..old(self)@ }),
    {
        self.options = Some(value);
    }

    /// Takes the `options` field out, leaving it unset.
    pub fn take_options(&mut self) -> (r: Option<FileOptions>)
        ensures
            opt_view(r) == old(self)@.options,
            final(self)@ == (FileDescriptorProtoView { options: None, ..old(self)@ }),
    {
        self.options.take()
    }

    /// Clears the `options` field, leaving it unset.
    pub fn clear_options(&mut self)
        ensures
            final(self)@ == (FileDescriptorProtoView { options: None, ..old(self)@ }),
    {
        self.options = None;
    }

    /// Gets the `source_code_info` field if it is set.
    pub fn source_code_info_option(&self) -> (r: Option<&SourceCodeInfo>)
        ensures
            opt_ref_view(r) == self@.source_code_info,
    {
        self.source_code_info.as_ref()
    }

    /// Gets the `source_code_info` field for changing it, setting it to its type's default first if it
    /// is not set.
    pub fn source_code_info_mut(&mut self) -> (r: &mut SourceCodeInfo)
        ensures
            (*r)@ == old(self)@.source_code_info.unwrap_or(source_code_info_default()),
            final(self)@ == (FileDescriptorProtoView { source_code_info: Some((*final(r))@), ..old(self)@ }),
    {
        self.source_code_info.get_or_insert(SourceCodeInfo::default())
    }

    /// Returns whether the `source_code_info` field is set.
    pub fn has_source_code_info(&self) -> (r: bool)
        ensures
            r == self@.source_code_info is Some,
    {
        self.source_code_info.is_some()
    }

    /// Sets the `source_code_info` field.
    pub fn set_source_code_info(&mut self, value: SourceCodeInfo)
        ensures
            final(self)@ == (FileDescriptorProtoView { source_code_info: Some(value@), ..old(self)@ }),
    {
        self.source_code_info = Some(value);
    }

    /// Takes the `source_code_info` field out, leaving it unset.
    pub fn take_source_code_info(&mut self) -> (r: Option<SourceCodeInfo>)
        ensures
            opt_view(r) == old(self)@.source_code_info,
            final(self)@ == (FileDescriptorProtoView { source_code_info: None, ..old(self)@ }),
    {
        self.source_code_info.take()
    }

    /// Clears the `source_code_info` field, leaving it unset.
    pub fn clear_source_code_info(&mut self)
        ensures
            final(self)@ == (FileDescriptorProtoView { source_code_info: None, ..old(self)@ }),
    {
        self.source_code_info = None;
    }

    /// Gets the `syntax` field, or its default, the empty string.
    pub fn syntax(&self) -> (r: &str)
        ensures
            r@ == text_or_empty(self@.syntax),
    {
        proof {
            reveal_strlit("");
        }
        match &self.syntax {
            Some(s) => s.as_str(),
            None => "",
        }
    }

    /// Gets the `syntax` field if it is set.
    pub fn syntax_option(&self) -> (r: Option<&String>)
        ensures
            opt_ref_view(r) == self@.syntax,
    {
        self.syntax.as_ref()
    }

    /// Gets the `syntax` field for changing it, setting it to its type's default first if it
    /// is not set.
    pub fn syntax_mut(&mut self) -> (r: &mut String)
        ensures
            (*r)@ == old(self)@.syntax.unwrap_or(Seq::<char>::empty()),
            final(self)@ == (FileDescriptorProtoView { syntax: Some((*final(r))@), ..old(self)@ }),
    {
        self.syntax.get_or_insert(String::new())
    }

    /// Returns whether the `syntax` field is set.
    pub fn has_syntax(&self) -> (r: bool)
        ensures
            r == self@.syntax is Some,
    {
        self.syntax.is_some()
    }

    /// Sets the `syntax` field.
    pub fn set_syntax(&mut self, value: String)
        ensures
            final(self)@ == (FileDescriptorProtoView { syntax: Some(value@), ..old(self)@ }),
    {
        self.syntax = Some(value);
    }

    /// Takes the `syntax` field out, leaving it unset.
    pub fn take_syntax(&mut self) -> (r: Option<String>)
        ensures
            opt_view(r) == old(self)@.syntax,
            final(self)@ == (FileDescriptorProtoView { syntax: None, ..old(self)@ }),
    {
        self.syntax.take()
    }

    /// Clears the `syntax` field, leaving it unset.
    pub fn clear_syntax(&mut self)
        ensures
            final(self)@ == (FileDescriptorProtoView { syntax: None, ..old(self)@ }),
    {
        self.syntax = None;
    }
}

/// The parts a `FileDescriptorProto` is written as: its fields that are set, in field number order, then its
/// unknown fields.
#[verifier::opaque]
pub open spec fn file_descriptor_proto_parts(v: FileDescriptorProtoView) -> Seq<(bool, Seq<u8>)>
{
    opt_field_parts::<raw::String>(1u32, v.name) + (opt_field_parts::<raw::String>(2u32, v.package) + (unpacked_parts::<raw::String>(3u32, v.dependency) + (descriptor_proto_seq_parts(4u32, v.message_type) + (enum_descriptor_proto_seq_parts(5u32, v.enum_type) + (service_descriptor_proto_seq_parts(6u32, v.service) + (field_descriptor_proto_seq_parts(7u32, v.extension) + (file_options_opt_parts(8u32, v.options) + (source_code_info_opt_parts(9u32, v.source_code_info) + (unpacked_parts::<raw::Int32>(10u32, v.public_dependency) + (unpacked_parts::<raw::Int32>(11u32, v.weak_dependency) + (opt_field_parts::<raw::String>(12u32, v.syntax) + (set_parts(v.unknown_fields)))))))))))))
}

/// The parts the `FileDescriptorProto` values of a repeated field with field number `num` are written as:
/// for each, its tag, its length and its parts.
pub open spec fn file_descriptor_proto_seq_parts(num: u32, ys: Seq<FileDescriptorProtoView>) -> Seq<(bool, Seq<u8>)>
    decreases ys,
{
    if ys.len() == 0 {
        Seq::empty()
    } else {
        file_descriptor_proto_seq_parts(num, ys.subrange(0, ys.len() - 1)) + entry_parts(num, file_descriptor_proto_parts(ys[ys.len() - 1]))
    }
}

/// What reading the field with tag value `t` from the front of `rest` into `v` gives: the
/// number of bytes read and the message after, or the error.
pub open spec fn file_descriptor_proto_field_read(v: FileDescriptorProtoView, t: u32, rest: Seq<u8>, depth: nat, limit: nat, skip: bool, eg: Option<Tag>) -> ReadResult<(int, FileDescriptorProtoView)>
{
    if t == 10u32 {
        match <raw::String as Value>::decoding(rest) { Ok((m, x)) => Ok((m, FileDescriptorProtoView { name: Some(x), ..v })), Err(e) => Err(e) }
    } else if t == 18u32 {
        match <raw::String as Value>::decoding(rest) { Ok((m, x)) => Ok((m, FileDescriptorProtoView { package: Some(x), ..v })), Err(e) => Err(e) }
    } else if t == 26u32 {
        match <RepeatedField<std::string::String> as RepeatedValue<raw::String>>::entries_read(rest) { Ok((m, es)) => Ok((m, FileDescriptorProtoView { dependency: v.dependency + es, ..v })), Err(e) => Err(e) }
    } else if t == 34u32 {
        match length_delimited_read(rest) { Err(e) => Err(e), Ok((m, b)) => if depth >= limit { Err(ReadError::RecursionLimitExceeded) } else { match descriptor_proto_merged(descriptor_proto_default(), b, depth + 1, limit, skip, eg) { Ok(y) => Ok((m, FileDescriptorProtoView { message_type: v.message_type.push(y), ..v })), Err(e) => Err(e) } } }
    } else if t == 42u32 {
        match length_delimited_read(rest) { Err(e) => Err(e), Ok((m, b)) => if depth >= limit { Err(ReadError::RecursionLimitExceeded) } else { match enum_descriptor_proto_merged(enum_descriptor_proto_default(), b, depth + 1, limit, skip, eg) { Ok(y) => Ok((m, FileDescriptorProtoView { enum_type: v.enum_type.push(y), ..v })), Err(e) => Err(e) } } }
    } else if t == 50u32 {
        match length_delimited_read(rest) { Err(e) => Err(e), Ok((m, b)) => if depth >= limit { Err(ReadError::RecursionLimitExceeded) } else { match service_descriptor_proto_merged(service_descriptor_proto_default(), b, depth + 1, limit, skip, eg) { Ok(y) => Ok((m, FileDescriptorProtoView { service: v.service.push(y), ..v })), Err(e) => Err(e) } } }
    } else if t == 58u32 {
        match length_delimited_read(rest) { Err(e) => Err(e), Ok((m, b)) => if depth >= limit { Err(ReadError::RecursionLimitExceeded) } else { match field_descriptor_proto_merged(field_descriptor_proto_default(), b, depth + 1, limit, skip, eg) { Ok(y) => Ok((m, FileDescriptorProtoView { extension: v.extension.push(y), ..v })), Err(e) => Err(e) } } }
    } else if t == 66u32 {
        match length_delimited_read(rest) { Err(e) => Err(e), Ok((m, b)) => if depth >= limit { Err(ReadError::RecursionLimitExceeded) } else { match file_options_merged(match v.options { Some(y) => y, None => file_options_default() }, b, depth + 1, limit, skip, eg) { Ok(y) => Ok((m, FileDescriptorProtoView { options: Some(y), ..v })), Err(e) => Err(e) } } }
    } else if t == 74u32 {
        match length_delimited_read(rest) { Err(e) => Err(e), Ok((m, b)) => if depth >= limit { Err(ReadError::RecursionLimitExceeded) } else { match source_code_info_merged(match v.source_code_info { Some(y) => y, None => source_code_info_default() }, b, depth + 1, limit, skip, eg) { Ok(y) => Ok((m, FileDescriptorProtoView { source_code_info: Some(y), ..v })), Err(e) => Err(e) } } }
    } else if t == 80u32 {
        match <RepeatedField<i32> as RepeatedValue<raw::Int32>>::entries_read(rest) { Ok((m, es)) => Ok((m, FileDescriptorProtoView { public_dependency: v.public_dependency + es, ..v })), Err(e) => Err(e) }
    } else if t == 82u32 {
        match <RepeatedField<i32> as RepeatedValue<Packed<raw::Int32>>>::entries_read(rest) { Ok((m, es)) => Ok((m, FileDescriptorProtoView { public_dependency: v.public_dependency + es, ..v })), Err(e) => Err(e) }
    } else if t == 88u32 {
        match <RepeatedField<i32> as RepeatedValue<raw::Int32>>::entries_read(rest) { Ok((m, es)) => Ok((m, FileDescriptorProtoView { weak_dependency: v.weak_dependency + es, ..v })), Err(e) => Err(e) }
    } else if t == 90u32 {
        match <RepeatedField<i32> as RepeatedValue<Packed<raw::Int32>>>::entries_read(rest) { Ok((m, es)) => Ok((m, FileDescriptorProtoView { weak_dependency: v.weak_dependency + es, ..v })), Err(e) => Err(e) }
    } else if t == 98u32 {
        match <raw::String as Value>::decoding(rest) { Ok((m, x)) => Ok((m, FileDescriptorProtoView { syntax: Some(x), ..v })), Err(e) => Err(e) }
    } else {
        match unknown_field_read(v.unknown_fields, t, rest, depth, limit, skip, eg) {
            Ok((m, u)) => Ok((m, FileDescriptorProtoView { unknown_fields: u, ..v })),
            Err(e) => Err(e),
        }
    }
}

/// What reading all of `s` into `v` as `FileDescriptorProto` fields gives: the message after, or the error.
/// `depth` and `limit` are the reader's depth and recursion limit, `skip` whether it skips
/// unknown fields, and `eg` the end tag of the group it is in.
pub open spec fn file_descriptor_proto_merged(v: FileDescriptorProtoView, s: Seq<u8>, depth: nat, limit: nat, skip: bool, eg: Option<Tag>) -> ReadResult<FileDescriptorProtoView>
    decreases s.len(),
{
    if s.len() == 0 {
        Ok(v)
    } else {
        match varint_read(s) {
            Err(e) => Err(e),
            Ok((n, w)) => if n < 1 || n > s.len() {
                Err(eof())
            } else {
                match file_descriptor_proto_field_read(v, w as u32, s.skip(n), depth, limit, skip, eg) {
                    Err(e) => Err(e),
                    Ok((m, v2)) => if m < 0 || n + m > s.len() {
                        Err(eof())
                    } else {
                        file_descriptor_proto_merged(v2, s.skip(n + m), depth, limit, skip, eg)
                    },
                }
            },
        }
    }
}

/// The views of a run of `FileDescriptorProto` values, value by value.
pub proof fn lemma_file_descriptor_proto_seq_view(s: Seq<FileDescriptorProto>)
    ensures
        file_descriptor_proto_seq_view(s).len() == s.len(),
        forall|i: int| 0 <= i < s.len() ==> #[trigger] file_descriptor_proto_seq_view(s)[i] == file_descriptor_proto_view(s[i]),
    decreases s.len(),
{
    if s.len() > 0 {
        lemma_file_descriptor_proto_seq_view(s.subrange(0, s.len() - 1));
        assert forall|i: int| 0 <= i < s.len() implies #[trigger] file_descriptor_proto_seq_view(s)[i] == file_descriptor_proto_view(s[i]) by {
            if i < s.len() - 1 {
                assert(s.subrange(0, s.len() - 1)[i] == s[i]);
            }
        }
    }
}

/// The parts of two runs of `FileDescriptorProto` values are those of the first, then the second.
proof fn lemma_file_descriptor_proto_seq_parts_append(num: u32, a: Seq<FileDescriptorProtoView>, b: Seq<FileDescriptorProtoView>)
    ensures
        file_descriptor_proto_seq_parts(num, a + b) == file_descriptor_proto_seq_parts(num, a) + file_descriptor_proto_seq_parts(num, b),
    decreases b.len(),
{
    if b.len() == 0 {
        assert(a + b =~= a);
        assert(file_descriptor_proto_seq_parts(num, a) + file_descriptor_proto_seq_parts(num, b) =~= file_descriptor_proto_seq_parts(num, a));
    } else {
        let ab = a + b;
        assert(ab.subrange(0, ab.len() - 1) =~= a + b.subrange(0, b.len() - 1));
        assert(ab[ab.len() - 1] == b[b.len() - 1]);
        lemma_file_descriptor_proto_seq_parts_append(num, a, b.subrange(0, b.len() - 1));
        assert(file_descriptor_proto_seq_parts(num, a + b) =~= file_descriptor_proto_seq_parts(num, a) + file_descriptor_proto_seq_parts(num, b));
    }
}

/// The parts of the first `i + 1` values of a run are those of the first `i`, then the entry
/// of value `i`; and those of the whole run are those of the first `i + 1`, then the rest.
proof fn lemma_file_descriptor_proto_seq_parts_step(num: u32, ys: Seq<FileDescriptorProtoView>, i: int)
    requires
        0 <= i < ys.len(),
    ensures
        file_descriptor_proto_seq_parts(num, ys.take(i + 1)) == file_descriptor_proto_seq_parts(num, ys.take(i)) + entry_parts(num, file_descriptor_proto_parts(ys[i])),
        file_descriptor_proto_seq_parts(num, ys) == file_descriptor_proto_seq_parts(num, ys.take(i + 1)) + file_descriptor_proto_seq_parts(num, ys.skip(i + 1)),
{
    assert(ys.take(i + 1).subrange(0, i) =~= ys.take(i));
    assert(ys.take(i + 1)[i] == ys[i]);
    lemma_file_descriptor_proto_seq_parts_append(num, ys.take(i + 1), ys.skip(i + 1));
    assert(ys.take(i + 1) + ys.skip(i + 1) =~= ys);
}

/// The parts of `FileDescriptorProto` values are those of the first value's entry, then those of the others.
proof fn lemma_file_descriptor_proto_seq_parts_front(num: u32, ys: Seq<FileDescriptorProtoView>)
    requires
        ys.len() > 0,
    ensures
        file_descriptor_proto_seq_parts(num, ys) == entry_parts(num, file_descriptor_proto_parts(ys[0])) + file_descriptor_proto_seq_parts(num, ys.drop_first()),
{
    let one = seq![ys[0]];
    lemma_file_descriptor_proto_seq_parts_append(num, one, ys.drop_first());
    assert(one + ys.drop_first() =~= ys);
    assert(one.subrange(0, 0) =~= Seq::<FileDescriptorProtoView>::empty());
    assert(file_descriptor_proto_seq_parts(num, Seq::<FileDescriptorProtoView>::empty()) =~= Seq::<(bool, Seq<u8>)>::empty());
    assert(one[0] == ys[0]);
    assert(file_descriptor_proto_seq_parts(num, one) =~= entry_parts(num, file_descriptor_proto_parts(ys[0])));
}

/// Adds the size of the `FileDescriptorProto` values of a repeated field with field number `num`.
fn file_descriptor_proto_values_size(vs: &Vec<FileDescriptorProto>, builder: LengthBuilder, num: FieldNumber) -> (r: Option<LengthBuilder>)
    ensures
        size_added(builder@ as int, parts_encodable(file_descriptor_proto_seq_parts(num@, file_descriptor_proto_seq_view(vs@))), parts_bytes(file_descriptor_proto_seq_parts(num@, file_descriptor_proto_seq_view(vs@))).len() as int, r),
{
    let ghost ys = file_descriptor_proto_seq_view(vs@);
    proof {
        lemma_file_descriptor_proto_seq_view(vs@);
        assert(ys.take(0) =~= Seq::<FileDescriptorProtoView>::empty());
    }
    let mut b = builder;
    let mut i: usize = 0;
    while i < vs.len()
        invariant
            ys == file_descriptor_proto_seq_view(vs@),
            ys.len() == vs@.len(),
            forall|k: int| 0 <= k < vs@.len() ==> #[trigger] ys[k] == file_descriptor_proto_view(vs@[k]),
            i <= vs@.len(),
            size_added(builder@ as int, parts_encodable(file_descriptor_proto_seq_parts(num@, ys.take(i as int))), parts_bytes(file_descriptor_proto_seq_parts(num@, ys.take(i as int))).len() as int, Some(b)),
        decreases vs@.len() - i,
    {
        let ghost y = ys[i as int];
        let ghost done = file_descriptor_proto_seq_parts(num@, ys.take(i as int));
        let ghost cur = entry_parts(num@, file_descriptor_proto_parts(y));
        let ghost rest = file_descriptor_proto_seq_parts(num@, ys.skip(i + 1));
        proof {
            lemma_file_descriptor_proto_seq_parts_step(num@, ys, i as int);
        }
        let len = vs[i].calculate_size();
        let r = add_entry_size(b, num, len, Ghost(file_descriptor_proto_parts(y)));
        proof {
            lemma_size_chain(builder@ as int, done, cur, Some(b), r);
        }
        b = match r {
            Some(b1) => b1,
            None => {
                proof {
                    lemma_size_prefix(builder@ as int, done + cur, rest);
                }
                return None;
            },
        };
        i = i + 1;
    }
    proof {
        assert(ys.take(i as int) =~= ys);
    }
    Some(b)
}

/// Writes the `FileDescriptorProto` values of a repeated field with field number `num`: for each, its tag,
/// its length and its fields.
fn write_file_descriptor_proto_values(vs: &Vec<FileDescriptorProto>, output: &mut CodedWriter, num: FieldNumber) -> (r: WriteResult)
    ensures
        (final(output).written(), r) == parts_written(old(output).written(), old(output).capacity(), file_descriptor_proto_seq_parts(num@, file_descriptor_proto_seq_view(vs@))),
        final(output).capacity() == old(output).capacity(),
        (*final(final(output).target()))@ == (*final(old(output).target()))@,
{
    let ghost ys = file_descriptor_proto_seq_view(vs@);
    let ghost start = output.written();
    let ghost cap = output.capacity();
    proof {
        lemma_file_descriptor_proto_seq_view(vs@);
        assert(ys.take(0) =~= Seq::<FileDescriptorProtoView>::empty());
    }
    let mut i: usize = 0;
    while i < vs.len()
        invariant
            ys == file_descriptor_proto_seq_view(vs@),
            ys.len() == vs@.len(),
            forall|k: int| 0 <= k < vs@.len() ==> #[trigger] ys[k] == file_descriptor_proto_view(vs@[k]),
            i <= vs@.len(),
            start == old(output).written(),
            cap == old(output).capacity(),
            output.capacity() == cap,
            (*final(output.target()))@ == (*final(old(output).target()))@,
            parts_written(start, cap, file_descriptor_proto_seq_parts(num@, ys.take(i as int))).0 == output.written(),
            parts_written(start, cap, file_descriptor_proto_seq_parts(num@, ys.take(i as int))).1 is Ok,
        decreases vs@.len() - i,
    {
        let ghost y = ys[i as int];
        let ghost done = file_descriptor_proto_seq_parts(num@, ys.take(i as int));
        let ghost head = entry_head(num@, file_descriptor_proto_parts(y));
        let ghost cur = head + file_descriptor_proto_parts(y);
        let ghost rest = file_descriptor_proto_seq_parts(num@, ys.skip(i + 1));
        let ghost w0 = output.written();
        proof {
            lemma_file_descriptor_proto_seq_parts_step(num@, ys, i as int);
            lemma_parts_written_append(start, cap, done, cur);
            lemma_parts_written_append(start, cap, done + cur, rest);
            lemma_parts_written_append(w0, cap, head, file_descriptor_proto_parts(y));
            reveal_with_fuel(parts_written, 3);
            assert(head.drop_first().drop_first() =~= Seq::<(bool, Seq<u8>)>::empty());
        }
        match output.write_tag(Tag::new(num, WireType::LengthDelimited)) {
            Ok(()) => {},
            Err(e) => return Err(e),
        }
        let len = match vs[i].calculate_size() {
            Some(len) => len,
            None => return Err(WriteError::ValueTooLarge),
        };
        match output.write_length(len) {
            Ok(()) => {},
            Err(e) => return Err(e),
        }
        match vs[i].write_to(output) {
            Ok(()) => {},
            Err(e) => return Err(e),
        }
        i = i + 1;
    }
    proof {
        assert(ys.take(i as int) =~= ys);
        lemma_ok_unit(parts_written(start, cap, file_descriptor_proto_seq_parts(num@, ys)).1);
    }
    Ok(())
}

/// Reads a `FileDescriptorProto` from the reader as a length delimited value, merging it into `this`, one
/// level deeper.
fn merge_file_descriptor_proto_delimited(this: &mut FileDescriptorProto, input: &mut CodedReader) -> (r: ReadResult<()>)
    ensures
        match length_delimited_read(old(input).available()) {
            Err(e) => r == Err::<(), ReadError>(e) && same_config(*old(input), *final(input)),
            Ok((m, b)) => if old(input).depth() >= old(input).recursion_limit() {
                r == Err::<(), ReadError>(ReadError::RecursionLimitExceeded) && same_config(*old(input), *final(input))
            } else {
                match file_descriptor_proto_merged(old(this)@, b, old(input).depth() + 1, old(input).recursion_limit(), skips(*old(input)), old(input).end_group_view()) {
                    Ok(y) => r is Ok && final(this)@ == y && final(input).position() == old(input).position() + m
                        && same_state(*old(input), *final(input)),
                    Err(e) => r == Err::<(), ReadError>(e) && same_config(*old(input), *final(input)),
                }
            },
        },
{
    let rem0 = input.remaining();
    let ghost s = input.available();
    let ghost start = *input;
    let length = match input.read_length() {
        Ok(l) => l,
        Err(e) => return Err(e),
    };
    let rem1 = input.remaining();
    let ghost n0 = input.position() - start.position();
    proof {
        lemma_varint_read_len(s);
        assert(input.available() =~= s.skip(n0));
    }
    let previous = match input.push_length(length) {
        Ok(p) => p,
        Err(e) => return Err(e),
    };
    let rem2 = input.remaining();
    let ghost b = s.subrange(n0, n0 + length@);
    proof {
        assert(input.available() =~= b);
        assert(length_delimited_read(s) == Ok::<(int, Seq<u8>), ReadError>((n0 + length@, b)));
    }
    let ghost pushed = *input;
    match input.increment_recursion_count() {
        Ok(()) => {},
        Err(e) => {
            input.pop_length(previous);
            return Err(e);
        },
    }
    let r = this.merge_from(input);
    let rem3 = input.remaining();
    input.decrement_recursion_count();
    input.pop_length(previous);
    r
}

impl FileDescriptorProto {
    /// Gets the unknown fields of the message.
    pub fn unknown_fields(&self) -> (r: &UnknownFieldSet)
        ensures
            r@ == self@.unknown_fields,
    {
        &self.unknown_fields
    }

    /// Gets the unknown fields of the message for changing them.
    pub fn unknown_fields_mut(&mut self) -> (r: &mut UnknownFieldSet)
        ensures
            (*r)@ == old(self)@.unknown_fields,
            final(self)@ == (FileDescriptorProtoView { unknown_fields: (*final(r))@, ..old(self)@ }),
    {
        &mut self.unknown_fields
    }

    /// Returns whether the message is initialized: whether all its required fields are set.
    pub fn is_initialized(&self) -> (r: bool)
        ensures
            r,
    {
        if !crate::is_initialized(&self.dependency) {
            return false;
        }
        if !crate::is_initialized(&self.public_dependency) {
            return false;
        }
        if !crate::is_initialized(&self.weak_dependency) {
            return false;
        }
        if !crate::is_initialized(&self.message_type) {
            return false;
        }
        if !crate::is_initialized(&self.enum_type) {
            return false;
        }
        if !crate::is_initialized(&self.service) {
            return false;
        }
        if !crate::is_initialized(&self.extension) {
            return false;
        }
        true
    }

    /// Calculates the size of the message as it is written: `None` if a part cannot be
    /// written or the size does not fit in a length.
    #[verifier::spinoff_prover]
    #[verifier::rlimit(100)]
    pub fn calculate_size(&self) -> (r: Option<Length>)
        ensures
            opt_length(r) == parts_size(file_descriptor_proto_parts(self@)),
    {
        let ghost v = self@;
        let ghost all = file_descriptor_proto_parts(v);
        let b0 = LengthBuilder::new();
        let ghost d0 = Seq::<(bool, Seq<u8>)>::empty();
        proof {
            reveal(file_descriptor_proto_parts);
            assert(all =~= d0 + all);
        }
        let ghost p1 = opt_field_parts::<raw::String>(1u32, v.name);
        let ghost rest1 = opt_field_parts::<raw::String>(2u32, v.package) + (unpacked_parts::<raw::String>(3u32, v.dependency) + (descriptor_proto_seq_parts(4u32, v.message_type) + (enum_descriptor_proto_seq_parts(5u32, v.enum_type) + (service_descriptor_proto_seq_parts(6u32, v.service) + (field_descriptor_proto_seq_parts(7u32, v.extension) + (file_options_opt_parts(8u32, v.options) + (source_code_info_opt_parts(9u32, v.source_code_info) + (unpacked_parts::<raw::Int32>(10u32, v.public_dependency) + (unpacked_parts::<raw::Int32>(11u32, v.weak_dependency) + (opt_field_parts::<raw::String>(12u32, v.syntax) + (set_parts(v.unknown_fields))))))))))));
        proof {
            assert(self@.name == opt_inner_view::<raw::String>(self.name));
            assert(all == d0 + (p1 + rest1));
            assert(d0 + (p1 + rest1) =~= d0 + p1 + rest1);
        }
        let r1 = add_opt_field::<raw::String>(b0, FieldNumber::new_unchecked(1), &self.name);
        proof {
            lemma_size_chain(0, d0, p1, Some(b0), r1);
            if r1 is None {
                lemma_size_chain(0, d0 + p1, rest1, r1, r1);
            }
        }
        let b1 = match r1 {
            Some(b) => b,
            None => return None,
        };
        let ghost d1 = d0 + p1;
        let ghost p2 = opt_field_parts::<raw::String>(2u32, v.package);
        let ghost rest2 = unpacked_parts::<raw::String>(3u32, v.dependency) + (descriptor_proto_seq_parts(4u32, v.message_type) + (enum_descriptor_proto_seq_parts(5u32, v.enum_type) + (service_descriptor_proto_seq_parts(6u32, v.service) + (field_descriptor_proto_seq_parts(7u32, v.extension) + (file_options_opt_parts(8u32, v.options) + (source_code_info_opt_parts(9u32, v.source_code_info) + (unpacked_parts::<raw::Int32>(10u32, v.public_dependency) + (unpacked_parts::<raw::Int32>(11u32, v.weak_dependency) + (opt_field_parts::<raw::String>(12u32, v.syntax) + (set_parts(v.unknown_fields)))))))))));
        proof {
            assert(self@.package == opt_inner_view::<raw::String>(self.package));
            assert(all == d1 + (p2 + rest2));
            assert(d1 + (p2 + rest2) =~= d1 + p2 + rest2);
        }
        let r2 = add_opt_field::<raw::String>(b1, FieldNumber::new_unchecked(2), &self.package);
        proof {
            lemma_size_chain(0, d1, p2, Some(b1), r2);
            if r2 is None {
                lemma_size_chain(0, d1 + p2, rest2, r2, r2);
            }
        }
        let b2 = match r2 {
            Some(b) => b,
            None => return None,
        };
        let ghost d2 = d1 + p2;
        let ghost p3 = unpacked_parts::<raw::String>(3u32, v.dependency);
        let ghost rest3 = descriptor_proto_seq_parts(4u32, v.message_type) + (enum_descriptor_proto_seq_parts(5u32, v.enum_type) + (service_descriptor_proto_seq_parts(6u32, v.service) + (field_descriptor_proto_seq_parts(7u32, v.extension) + (file_options_opt_parts(8u32, v.options) + (source_code_info_opt_parts(9u32, v.source_code_info) + (unpacked_parts::<raw::Int32>(10u32, v.public_dependency) + (unpacked_parts::<raw::Int32>(11u32, v.weak_dependency) + (opt_field_parts::<raw::String>(12u32, v.syntax) + (set_parts(v.unknown_fields))))))))));
        proof {
            <RepeatedField<std::string::String> as RepeatedValue<raw::String>>::lemma_countable(&self.dependency, 3u32);
            assert(all == d2 + (p3 + rest3));
            assert(d2 + (p3 + rest3) =~= d2 + p3 + rest3);
        }
        let r3 = <RepeatedField<std::string::String> as RepeatedValue<raw::String>>::calculate_size(&self.dependency, b2, FieldNumber::new_unchecked(3));
        proof {
            lemma_size_chain(0, d2, p3, Some(b2), r3);
            if r3 is None {
                lemma_size_chain(0, d2 + p3, rest3, r3, r3);
            }
        }
        let b3 = match r3 {
            Some(b) => b,
            None => return None,
        };
        let ghost d3 = d2 + p3;
        let ghost p4 = descriptor_proto_seq_parts(4u32, v.message_type);
        let ghost rest4 = enum_descriptor_proto_seq_parts(5u32, v.enum_type) + (service_descriptor_proto_seq_parts(6u32, v.service) + (field_descriptor_proto_seq_parts(7u32, v.extension) + (file_options_opt_parts(8u32, v.options) + (source_code_info_opt_parts(9u32, v.source_code_info) + (unpacked_parts::<raw::Int32>(10u32, v.public_dependency) + (unpacked_parts::<raw::Int32>(11u32, v.weak_dependency) + (opt_field_parts::<raw::String>(12u32, v.syntax) + (set_parts(v.unknown_fields)))))))));
        proof {
            assert(all == d3 + (p4 + rest4));
            assert(d3 + (p4 + rest4) =~= d3 + p4 + rest4);
        }
        let r4 = descriptor_proto_values_size(&self.message_type, b3, FieldNumber::new_unchecked(4));
        proof {
            lemma_size_chain(0, d3, p4, Some(b3), r4);
            if r4 is None {
                lemma_size_chain(0, d3 + p4, rest4, r4, r4);
            }
        }
        let b4 = match r4 {
            Some(b) => b,
            None => return None,
        };
        let ghost d4 = d3 + p4;
        let ghost p5 = enum_descriptor_proto_seq_parts(5u32, v.enum_type);
        let ghost rest5 = service_descriptor_proto_seq_parts(6u32, v.service) + (field_descriptor_proto_seq_parts(7u32, v.extension) + (file_options_opt_parts(8u32, v.options) + (source_code_info_opt_parts(9u32, v.source_code_info) + (unpacked_parts::<raw::Int32>(10u32, v.public_dependency) + (unpacked_parts::<raw::Int32>(11u32, v.weak_dependency) + (opt_field_parts::<raw::String>(12u32, v.syntax) + (set_parts(v.unknown_fields))))))));
        proof {
            assert(all == d4 + (p5 + rest5));
            assert(d4 + (p5 + rest5) =~= d4 + p5 + rest5);
        }
        let r5 = enum_descriptor_proto_values_size(&self.enum_type, b4, FieldNumber::new_unchecked(5));
        proof {
            lemma_size_chain(0, d4, p5, Some(b4), r5);
            if r5 is None {
                lemma_size_chain(0, d4 + p5, rest5, r5, r5);
            }
        }
        let b5 = match r5 {
            Some(b) => b,
            None => return None,
        };
        let ghost d5 = d4 + p5;
        let ghost p6 = service_descriptor_proto_seq_parts(6u32, v.service);
        let ghost rest6 = field_descriptor_proto_seq_parts(7u32, v.extension) + (file_options_opt_parts(8u32, v.options) + (source_code_info_opt_parts(9u32, v.source_code_info) + (unpacked_parts::<raw::Int32>(10u32, v.public_dependency) + (unpacked_parts::<raw::Int32>(11u32, v.weak_dependency) + (opt_field_parts::<raw::String>(12u32, v.syntax) + (set_parts(v.unknown_fields)))))));
        proof {
            assert(all == d5 + (p6 + rest6));
            assert(d5 + (p6 + rest6) =~= d5 + p6 + rest6);
        }
        let r6 = service_descriptor_proto_values_size(&self.service, b5, FieldNumber::new_unchecked(6));
        proof {
            lemma_size_chain(0, d5, p6, Some(b5), r6);
            if r6 is None {
                lemma_size_chain(0, d5 + p6, rest6, r6, r6);
            }
        }
        let b6 = match r6 {
            Some(b) => b,
            None => return None,
        };
        let ghost d6 = d5 + p6;
        let ghost p7 = field_descriptor_proto_seq_parts(7u32, v.extension);
        let ghost rest7 = file_options_opt_parts(8u32, v.options) + (source_code_info_opt_parts(9u32, v.source_code_info) + (unpacked_parts::<raw::Int32>(10u32, v.public_dependency) + (unpacked_parts::<raw::Int32>(11u32, v.weak_dependency) + (opt_field_parts::<raw::String>(12u32, v.syntax) + (set_parts(v.unknown_fields))))));
        proof {
            assert(all == d6 + (p7 + rest7));
            assert(d6 + (p7 + rest7) =~= d6 + p7 + rest7);
        }
        let r7 = field_descriptor_proto_values_size(&self.extension, b6, FieldNumber::new_unchecked(7));
        proof {
            lemma_size_chain(0, d6, p7, Some(b6), r7);
            if r7 is None {
                lemma_size_chain(0, d6 + p7, rest7, r7, r7);
            }
        }
        let b7 = match r7 {
            Some(b) => b,
            None => return None,
        };
        let ghost d7 = d6 + p7;
        let ghost p8 = file_options_opt_parts(8u32, v.options);
        let ghost rest8 = source_code_info_opt_parts(9u32, v.source_code_info) + (unpacked_parts::<raw::Int32>(10u32, v.public_dependency) + (unpacked_parts::<raw::Int32>(11u32, v.weak_dependency) + (opt_field_parts::<raw::String>(12u32, v.syntax) + (set_parts(v.unknown_fields)))));
        proof {
            assert(self@.options == opt_view(self.options));
            assert(all == d7 + (p8 + rest8));
            assert(d7 + (p8 + rest8) =~= d7 + p8 + rest8);
        }
        let r8 = file_options_opt_size(&self.options, b7, FieldNumber::new_unchecked(8));
        proof {
            lemma_size_chain(0, d7, p8, Some(b7), r8);
            if r8 is None {
                lemma_size_chain(0, d7 + p8, rest8, r8, r8);
            }
        }
        let b8 = match r8 {
            Some(b) => b,
            None => return None,
        };
        let ghost d8 = d7 + p8;
        let ghost p9 = source_code_info_opt_parts(9u32, v.source_code_info);
        let ghost rest9 = unpacked_parts::<raw::Int32>(10u32, v.public_dependency) + (unpacked_parts::<raw::Int32>(11u32, v.weak_dependency) + (opt_field_parts::<raw::String>(12u32, v.syntax) + (set_parts(v.unknown_fields))));
        proof {
            assert(self@.source_code_info == opt_view(self.source_code_info));
            assert(all == d8 + (p9 + rest9));
            assert(d8 + (p9 + rest9) =~= d8 + p9 + rest9);
        }
        let r9 = source_code_info_opt_size(&self.source_code_info, b8, FieldNumber::new_unchecked(9));
        proof {
            lemma_size_chain(0, d8, p9, Some(b8), r9);
            if r9 is None {
                lemma_size_chain(0, d8 + p9, rest9, r9, r9);
            }
        }
        let b9 = match r9 {
            Some(b) => b,
            None => return None,
        };
        let ghost d9 = d8 + p9;
        let ghost p10 = unpacked_parts::<raw::Int32>(10u32, v.public_dependency);
        let ghost rest10 = unpacked_parts::<raw::Int32>(11u32, v.weak_dependency) + (opt_field_parts::<raw::String>(12u32, v.syntax) + (set_parts(v.unknown_fields)));
        proof {
            <RepeatedField<i32> as RepeatedValue<raw::Int32>>::lemma_countable(&self.public_dependency, 10u32);
            assert(all == d9 + (p10 + rest10));
            assert(d9 + (p10 + rest10) =~= d9 + p10 + rest10);
        }
        let r10 = <RepeatedField<i32> as RepeatedValue<raw::Int32>>::calculate_size(&self.public_dependency, b9, FieldNumber::new_unchecked(10));
        proof {
            lemma_size_chain(0, d9, p10, Some(b9), r10);
            if r10 is None {
                lemma_size_chain(0, d9 + p10, rest10, r10, r10);
            }
        }
        let b10 = match r10 {
            Some(b) => b,
            None => return None,
        };
        let ghost d10 = d9 + p10;
        let ghost p11 = unpacked_parts::<raw::Int32>(11u32, v.weak_dependency);
        let ghost rest11 = opt_field_parts::<raw::String>(12u32, v.syntax) + (set_parts(v.unknown_fields));
        proof {
            <RepeatedField<i32> as RepeatedValue<raw::Int32>>::lemma_countable(&self.weak_dependency, 11u32);
            assert(all == d10 + (p11 + rest11));
            assert(d10 + (p11 + rest11) =~= d10 + p11 + rest11);
        }
        let r11 = <RepeatedField<i32> as RepeatedValue<raw::Int32>>::calculate_size(&self.weak_dependency, b10, FieldNumber::new_unchecked(11));
        proof {
            lemma_size_chain(0, d10, p11, Some(b10), r11);
            if r11 is None {
                lemma_size_chain(0, d10 + p11, rest11, r11, r11);
            }
        }
        let b11 = match r11 {
            Some(b) => b,
            None => return None,
        };
        let ghost d11 = d10 + p11;
        let ghost p12 = opt_field_parts::<raw::String>(12u32, v.syntax);
        let ghost rest12 = set_parts(v.unknown_fields);
        proof {
            assert(self@.syntax == opt_inner_view::<raw::String>(self.syntax));
            assert(all == d11 + (p12 + rest12));
            assert(d11 + (p12 + rest12) =~= d11 + p12 + rest12);
        }
        let r12 = add_opt_field::<raw::String>(b11, FieldNumber::new_unchecked(12), &self.syntax);
        proof {
            lemma_size_chain(0, d11, p12, Some(b11), r12);
            if r12 is None {
                lemma_size_chain(0, d11 + p12, rest12, r12, r12);
            }
        }
        let b12 = match r12 {
            Some(b) => b,
            None => return None,
        };
        let ghost d12 = d11 + p12;
        let ghost p13 = set_parts(v.unknown_fields);
        let ghost rest13 = Seq::<(bool, Seq<u8>)>::empty();
        proof {
            assert(all == d12 + p13);
            assert(p13 + rest13 =~= p13);
            assert(d12 + (p13 + rest13) =~= d12 + p13 + rest13);
        }
        let r13 = self.unknown_fields.calculate_size(b12);
        proof {
            lemma_size_chain(0, d12, p13, Some(b12), r13);
            if r13 is None {
                lemma_size_chain(0, d12 + p13, rest13, r13, r13);
            }
        }
        let b13 = match r13 {
            Some(b) => b,
            None => return None,
        };
        let ghost d13 = d12 + p13;
        Some(b13.build())
    }

    /// Writes the message to the writer: its fields that are set, in field number order, then
    /// its unknown fields.
    #[verifier::spinoff_prover]
    #[verifier::rlimit(100)]
    pub fn write_to(&self, output: &mut CodedWriter) -> (r: WriteResult)
        ensures
            (final(output).written(), r) == parts_written(old(output).written(), old(output).capacity(), file_descriptor_proto_parts(self@)),
            final(output).capacity() == old(output).capacity(),
            (*final(final(output).target()))@ == (*final(old(output).target()))@,
    {
        let ghost v = self@;
        let ghost all = file_descriptor_proto_parts(v);
        let ghost start = output.written();
        let ghost cap = output.capacity();
        let ghost d0 = Seq::<(bool, Seq<u8>)>::empty();
        proof {
            reveal(file_descriptor_proto_parts);
            assert(all =~= d0 + all);
        }
        let ghost p1 = opt_field_parts::<raw::String>(1u32, v.name);
        let ghost rest1 = opt_field_parts::<raw::String>(2u32, v.package) + (unpacked_parts::<raw::String>(3u32, v.dependency) + (descriptor_proto_seq_parts(4u32, v.message_type) + (enum_descriptor_proto_seq_parts(5u32, v.enum_type) + (service_descriptor_proto_seq_parts(6u32, v.service) + (field_descriptor_proto_seq_parts(7u32, v.extension) + (file_options_opt_parts(8u32, v.options) + (source_code_info_opt_parts(9u32, v.source_code_info) + (unpacked_parts::<raw::Int32>(10u32, v.public_dependency) + (unpacked_parts::<raw::Int32>(11u32, v.weak_dependency) + (opt_field_parts::<raw::String>(12u32, v.syntax) + (set_parts(v.unknown_fields))))))))))));
        proof {
            assert(self@.name == opt_inner_view::<raw::String>(self.name));
            assert(all == d0 + (p1 + rest1));
            assert(d0 + (p1 + rest1) =~= d0 + p1 + rest1);
            lemma_parts_written_append(start, cap, d0, p1);
            lemma_parts_written_append(start, cap, d0 + p1, rest1);
        }
        match write_opt_field::<raw::String>(output, FieldNumber::new_unchecked(1), &self.name) {
            Ok(()) => {},
            Err(e) => return Err(e),
        }
        let ghost d1 = d0 + p1;
        let ghost p2 = opt_field_parts::<raw::String>(2u32, v.package);
        let ghost rest2 = unpacked_parts::<raw::String>(3u32, v.dependency) + (descriptor_proto_seq_parts(4u32, v.message_type) + (enum_descriptor_proto_seq_parts(5u32, v.enum_type) + (service_descriptor_proto_seq_parts(6u32, v.service) + (field_descriptor_proto_seq_parts(7u32, v.extension) + (file_options_opt_parts(8u32, v.options) + (source_code_info_opt_parts(9u32, v.source_code_info) + (unpacked_parts::<raw::Int32>(10u32, v.public_dependency) + (unpacked_parts::<raw::Int32>(11u32, v.weak_dependency) + (opt_field_parts::<raw::String>(12u32, v.syntax) + (set_parts(v.unknown_fields)))))))))));
        proof {
            assert(self@.package == opt_inner_view::<raw::String>(self.package));
            assert(all == d1 + (p2 + rest2));
            assert(d1 + (p2 + rest2) =~= d1 + p2 + rest2);
            lemma_parts_written_append(start, cap, d1, p2);
            lemma_parts_written_append(start, cap, d1 + p2, rest2);
        }
        match write_opt_field::<raw::String>(output, FieldNumber::new_unchecked(2), &self.package) {
            Ok(()) => {},
            Err(e) => return Err(e),
        }
        let ghost d2 = d1 + p2;
        let ghost p3 = unpacked_parts::<raw::String>(3u32, v.dependency);
        let ghost rest3 = descriptor_proto_seq_parts(4u32, v.message_type) + (enum_descriptor_proto_seq_parts(5u32, v.enum_type) + (service_descriptor_proto_seq_parts(6u32, v.service) + (field_descriptor_proto_seq_parts(7u32, v.extension) + (file_options_opt_parts(8u32, v.options) + (source_code_info_opt_parts(9u32, v.source_code_info) + (unpacked_parts::<raw::Int32>(10u32, v.public_dependency) + (unpacked_parts::<raw::Int32>(11u32, v.weak_dependency) + (opt_field_parts::<raw::String>(12u32, v.syntax) + (set_parts(v.unknown_fields))))))))));
        proof {
            assert(all == d2 + (p3 + rest3));
            assert(d2 + (p3 + rest3) =~= d2 + p3 + rest3);
            lemma_parts_written_append(start, cap, d2, p3);
            lemma_parts_written_append(start, cap, d2 + p3, rest3);
        }
        match <RepeatedField<std::string::String> as RepeatedValue<raw::String>>::write_to(&self.dependency, output, FieldNumber::new_unchecked(3)) {
            Ok(()) => {},
            Err(e) => return Err(e),
        }
        let ghost d3 = d2 + p3;
        let ghost p4 = descriptor_proto_seq_parts(4u32, v.message_type);
        let ghost rest4 = enum_descriptor_proto_seq_parts(5u32, v.enum_type) + (service_descriptor_proto_seq_parts(6u32, v.service) + (field_descriptor_proto_seq_parts(7u32, v.extension) + (file_options_opt_parts(8u32, v.options) + (source_code_info_opt_parts(9u32, v.source_code_info) + (unpacked_parts::<raw::Int32>(10u32, v.public_dependency) + (unpacked_parts::<raw::Int32>(11u32, v.weak_dependency) + (opt_field_parts::<raw::String>(12u32, v.syntax) + (set_parts(v.unknown_fields)))))))));
        proof {
            assert(all == d3 + (p4 + rest4));
            assert(d3 + (p4 + rest4) =~= d3 + p4 + rest4);
            lemma_parts_written_append(start, cap, d3, p4);
            lemma_parts_written_append(start, cap, d3 + p4, rest4);
        }
        match write_descriptor_proto_values(&self.message_type, output, FieldNumber::new_unchecked(4)) {
            Ok(()) => {},
            Err(e) => return Err(e),
        }
        let ghost d4 = d3 + p4;
        let ghost p5 = enum_descriptor_proto_seq_parts(5u32, v.enum_type);
        let ghost rest5 = service_descriptor_proto_seq_parts(6u32, v.service) + (field_descriptor_proto_seq_parts(7u32, v.extension) + (file_options_opt_parts(8u32, v.options) + (source_code_info_opt_parts(9u32, v.source_code_info) + (unpacked_parts::<raw::Int32>(10u32, v.public_dependency) + (unpacked_parts::<raw::Int32>(11u32, v.weak_dependency) + (opt_field_parts::<raw::String>(12u32, v.syntax) + (set_parts(v.unknown_fields))))))));
        proof {
            assert(all == d4 + (p5 + rest5));
            assert(d4 + (p5 + rest5) =~= d4 + p5 + rest5);
            lemma_parts_written_append(start, cap, d4, p5);
            lemma_parts_written_append(start, cap, d4 + p5, rest5);
        }
        match write_enum_descriptor_proto_values(&self.enum_type, output, FieldNumber::new_unchecked(5)) {
            Ok(()) => {},
            Err(e) => return Err(e),
        }
        let ghost d5 = d4 + p5;
        let ghost p6 = service_descriptor_proto_seq_parts(6u32, v.service);
        let ghost rest6 = field_descriptor_proto_seq_parts(7u32, v.extension) + (file_options_opt_parts(8u32, v.options) + (source_code_info_opt_parts(9u32, v.source_code_info) + (unpacked_parts::<raw::Int32>(10u32, v.public_dependency) + (unpacked_parts::<raw::Int32>(11u32, v.weak_dependency) + (opt_field_parts::<raw::String>(12u32, v.syntax) + (set_parts(v.unknown_fields)))))));
        proof {
            assert(all == d5 + (p6 + rest6));
            assert(d5 + (p6 + rest6) =~= d5 + p6 + rest6);
            lemma_parts_written_append(start, cap, d5, p6);
            lemma_parts_written_append(start, cap, d5 + p6, rest6);
        }
        match write_service_descriptor_proto_values(&self.service, output, FieldNumber::new_unchecked(6)) {
            Ok(()) => {},
            Err(e) => return Err(e),
        }
        let ghost d6 = d5 + p6;
        let ghost p7 = field_descriptor_proto_seq_parts(7u32, v.extension);
        let ghost rest7 = file_options_opt_parts(8u32, v.options) + (source_code_info_opt_parts(9u32, v.source_code_info) + (unpacked_parts::<raw::Int32>(10u32, v.public_dependency) + (unpacked_parts::<raw::Int32>(11u32, v.weak_dependency) + (opt_field_parts::<raw::String>(12u32, v.syntax) + (set_parts(v.unknown_fields))))));
        proof {
            assert(all == d6 + (p7 + rest7));
            assert(d6 + (p7 + rest7) =~= d6 + p7 + rest7);
            lemma_parts_written_append(start, cap, d6, p7);
            lemma_parts_written_append(start, cap, d6 + p7, rest7);
        }
        match write_field_descriptor_proto_values(&self.extension, output, FieldNumber::new_unchecked(7)) {
            Ok(()) => {},
            Err(e) => return Err(e),
        }
        let ghost d7 = d6 + p7;
        let ghost p8 = file_options_opt_parts(8u32, v.options);
        let ghost rest8 = source_code_info_opt_parts(9u32, v.source_code_info) + (unpacked_parts::<raw::Int32>(10u32, v.public_dependency) + (unpacked_parts::<raw::Int32>(11u32, v.weak_dependency) + (opt_field_parts::<raw::String>(12u32, v.syntax) + (set_parts(v.unknown_fields)))));
        proof {
            assert(self@.options == opt_view(self.options));
            assert(all == d7 + (p8 + rest8));
            assert(d7 + (p8 + rest8) =~= d7 + p8 + rest8);
            lemma_parts_written_append(start, cap, d7, p8);
            lemma_parts_written_append(start, cap, d7 + p8, rest8);
        }
        match write_file_options_opt(&self.options, output, FieldNumber::new_unchecked(8)) {
            Ok(()) => {},
            Err(e) => return Err(e),
        }
        let ghost d8 = d7 + p8;
        let ghost p9 = source_code_info_opt_parts(9u32, v.source_code_info);
        let ghost rest9 = unpacked_parts::<raw::Int32>(10u32, v.public_dependency) + (unpacked_parts::<raw::Int32>(11u32, v.weak_dependency) + (opt_field_parts::<raw::String>(12u32, v.syntax) + (set_parts(v.unknown_fields))));
        proof {
            assert(self@.source_code_info == opt_view(self.source_code_info));
            assert(all == d8 + (p9 + rest9));
            assert(d8 + (p9 + rest9) =~= d8 + p9 + rest9);
            lemma_parts_written_append(start, cap, d8, p9);
            lemma_parts_written_append(start, cap, d8 + p9, rest9);
        }
        match write_source_code_info_opt(&self.source_code_info, output, FieldNumber::new_unchecked(9)) {
            Ok(()) => {},
            Err(e) => return Err(e),
        }
        let ghost d9 = d8 + p9;
        let ghost p10 = unpacked_parts::<raw::Int32>(10u32, v.public_dependency);
        let ghost rest10 = unpacked_parts::<raw::Int32>(11u32, v.weak_dependency) + (opt_field_parts::<raw::String>(12u32, v.syntax) + (set_parts(v.unknown_fields)));
        proof {
            assert(all == d9 + (p10 + rest10));
            assert(d9 + (p10 + rest10) =~= d9 + p10 + rest10);
            lemma_parts_written_append(start, cap, d9, p10);
            lemma_parts_written_append(start, cap, d9 + p10, rest10);
        }
        match <RepeatedField<i32> as RepeatedValue<raw::Int32>>::write_to(&self.public_dependency, output, FieldNumber::new_unchecked(10)) {
            Ok(()) => {},
            Err(e) => return Err(e),
        }
        let ghost d10 = d9 + p10;
        let ghost p11 = unpacked_parts::<raw::Int32>(11u32, v.weak_dependency);
        let ghost rest11 = opt_field_parts::<raw::String>(12u32, v.syntax) + (set_parts(v.unknown_fields));
        proof {
            assert(all == d10 + (p11 + rest11));
            assert(d10 + (p11 + rest11) =~= d10 + p11 + rest11);
            lemma_parts_written_append(start, cap, d10, p11);
            lemma_parts_written_append(start, cap, d10 + p11, rest11);
        }
        match <RepeatedField<i32> as RepeatedValue<raw::Int32>>::write_to(&self.weak_dependency, output, FieldNumber::new_unchecked(11)) {
            Ok(()) => {},
            Err(e) => return Err(e),
        }
        let ghost d11 = d10 + p11;
        let ghost p12 = opt_field_parts::<raw::String>(12u32, v.syntax);
        let ghost rest12 = set_parts(v.unknown_fields);
        proof {
            assert(self@.syntax == opt_inner_view::<raw::String>(self.syntax));
            assert(all == d11 + (p12 + rest12));
            assert(d11 + (p12 + rest12) =~= d11 + p12 + rest12);
            lemma_parts_written_append(start, cap, d11, p12);
            lemma_parts_written_append(start, cap, d11 + p12, rest12);
        }
        match write_opt_field::<raw::String>(output, FieldNumber::new_unchecked(12), &self.syntax) {
            Ok(()) => {},
            Err(e) => return Err(e),
        }
        let ghost d12 = d11 + p12;
        let ghost p13 = set_parts(v.unknown_fields);
        let ghost rest13 = Seq::<(bool, Seq<u8>)>::empty();
        proof {
            assert(all == d12 + p13);
            assert(p13 + rest13 =~= p13);
            assert(d12 + (p13 + rest13) =~= d12 + p13 + rest13);
            lemma_parts_written_append(start, cap, d12, p13);
            lemma_parts_written_append(start, cap, d12 + p13, rest13);
        }
        match self.unknown_fields.write_to(output) {
            Ok(()) => {},
            Err(e) => return Err(e),
        }
        let ghost d13 = d12 + p13;
        proof {
            assert(all =~= d13 + Seq::<(bool, Seq<u8>)>::empty());
            assert(all == d13);
            lemma_ok_unit(parts_written(start, cap, all).1);
        }
        Ok(())
    }

    /// Reads the value of the field whose tag value `t` was just read into the message.
    #[verifier::spinoff_prover]
    fn merge_field(&mut self, t: u32, input: &mut CodedReader) -> (r: ReadResult<()>)
        ensures
            match file_descriptor_proto_field_read(old(self)@, t, old(input).available(), old(input).depth(), old(input).recursion_limit(), skips(*old(input)), old(input).end_group_view()) {
                Ok((m, v2)) => r is Ok && final(self)@ == v2 && m >= 0 && final(input).position()
                    == old(input).position() + m && same_state(*old(input), *final(input)),
                Err(e) => r == Err::<(), ReadError>(e) && same_config(*old(input), *final(input)),
            },
    {
        let rem0 = input.remaining();
        let ghost rest = input.available();
        if t == 10u32 {
            proof {
                <raw::String as Value>::lemma_decoding_len(rest);
            }
            input.set_last_tag(Some(Tag::new(FieldNumber::new_unchecked(1), WireType::LengthDelimited)));
            match <raw::String as Value>::merge_from(self.name.get_or_insert(std::string::String::new()), input) {
                Ok(()) => {},
                Err(e) => return Err(e),
            }
        } else if t == 18u32 {
            proof {
                <raw::String as Value>::lemma_decoding_len(rest);
            }
            input.set_last_tag(Some(Tag::new(FieldNumber::new_unchecked(2), WireType::LengthDelimited)));
            match <raw::String as Value>::merge_from(self.package.get_or_insert(std::string::String::new()), input) {
                Ok(()) => {},
                Err(e) => return Err(e),
            }
        } else if t == 26u32 {
            proof {
                <raw::String as Value>::lemma_decoding_len(rest);
            }
            input.set_last_tag(Some(Tag::new(FieldNumber::new_unchecked(3), WireType::LengthDelimited)));
            match <RepeatedField<std::string::String> as RepeatedValue<raw::String>>::add_entries_from(&mut self.dependency, input) {
                Ok(()) => {},
                Err(e) => return Err(e),
            }
        } else if t == 34u32 {
            proof {
                lemma_length_delimited_read_len(rest);
            }
            input.set_last_tag(Some(Tag::new(FieldNumber::new_unchecked(4), WireType::LengthDelimited)));
            let mut y = DescriptorProto::default();
            match merge_descriptor_proto_delimited(&mut y, input) {
                Ok(()) => {},
                Err(e) => return Err(e),
            }
            let ghost old_values = self.message_type@;
            self.message_type.push(y);
            proof {
                assert(self.message_type@.subrange(0, self.message_type@.len() - 1) =~= old_values);
            }
        } else if t == 42u32 {
            proof {
                lemma_length_delimited_read_len(rest);
            }
            input.set_last_tag(Some(Tag::new(FieldNumber::new_unchecked(5), WireType::LengthDelimited)));
            let mut y = EnumDescriptorProto::default();
            match merge_enum_descriptor_proto_delimited(&mut y, input) {
                Ok(()) => {},
                Err(e) => return Err(e),
            }
            let ghost old_values = self.enum_type@;
            self.enum_type.push(y);
            proof {
                assert(self.enum_type@.subrange(0, self.enum_type@.len() - 1) =~= old_values);
            }
        } else if t == 50u32 {
            proof {
                lemma_length_delimited_read_len(rest);
            }
            input.set_last_tag(Some(Tag::new(FieldNumber::new_unchecked(6), WireType::LengthDelimited)));
            let mut y = ServiceDescriptorProto::default();
            match merge_service_descriptor_proto_delimited(&mut y, input) {
                Ok(()) => {},
                Err(e) => return Err(e),
            }
            let ghost old_values = self.service@;
            self.service.push(y);
            proof {
                assert(self.service@.subrange(0, self.service@.len() - 1) =~= old_values);
            }
        } else if t == 58u32 {
            proof {
                lemma_length_delimited_read_len(rest);
            }
            input.set_last_tag(Some(Tag::new(FieldNumber::new_unchecked(7), WireType::LengthDelimited)));
            let mut y = FieldDescriptorProto::default();
            match merge_field_descriptor_proto_delimited(&mut y, input) {
                Ok(()) => {},
                Err(e) => return Err(e),
            }
            let ghost old_values = self.extension@;
            self.extension.push(y);
            proof {
                assert(self.extension@.subrange(0, self.extension@.len() - 1) =~= old_values);
            }
        } else if t == 66u32 {
            proof {
                lemma_length_delimited_read_len(rest);
            }
            input.set_last_tag(Some(Tag::new(FieldNumber::new_unchecked(8), WireType::LengthDelimited)));
            match &mut self.options {
                Some(y) => match merge_file_options_delimited(y, input) {
                    Ok(()) => {},
                    Err(e) => return Err(e),
                },
                None => {
                    let mut y = FileOptions::default();
                    match merge_file_options_delimited(&mut y, input) {
                        Ok(()) => {},
                        Err(e) => return Err(e),
                    }
                    self.options = Some(y);
                },
            }
        } else if t == 74u32 {
            proof {
                lemma_length_delimited_read_len(rest);
            }
            input.set_last_tag(Some(Tag::new(FieldNumber::new_unchecked(9), WireType::LengthDelimited)));
            match &mut self.source_code_info {
                Some(y) => match merge_source_code_info_delimited(y, input) {
                    Ok(()) => {},
                    Err(e) => return Err(e),
                },
                None => {
                    let mut y = SourceCodeInfo::default();
                    match merge_source_code_info_delimited(&mut y, input) {
                        Ok(()) => {},
                        Err(e) => return Err(e),
                    }
                    self.source_code_info = Some(y);
                },
            }
        } else if t == 80u32 {
            proof {
                <raw::Int32 as Value>::lemma_decoding_len(rest);
            }
            input.set_last_tag(Some(Tag::new(FieldNumber::new_unchecked(10), WireType::Varint)));
            match <RepeatedField<i32> as RepeatedValue<raw::Int32>>::add_entries_from(&mut self.public_dependency, input) {
                Ok(()) => {},
                Err(e) => return Err(e),
            }
        } else if t == 82u32 {
            proof {
                lemma_length_delimited_read_len(rest);
            }
            input.set_last_tag(Some(Tag::new(FieldNumber::new_unchecked(10), WireType::LengthDelimited)));
            match <RepeatedField<i32> as RepeatedValue<Packed<raw::Int32>>>::add_entries_from(&mut self.public_dependency, input) {
                Ok(()) => {},
                Err(e) => return Err(e),
            }
        } else if t == 88u32 {
            proof {
                <raw::Int32 as Value>::lemma_decoding_len(rest);
            }
            input.set_last_tag(Some(Tag::new(FieldNumber::new_unchecked(11), WireType::Varint)));
            match <RepeatedField<i32> as RepeatedValue<raw::Int32>>::add_entries_from(&mut self.weak_dependency, input) {
                Ok(()) => {},
                Err(e) => return Err(e),
            }
        } else if t == 90u32 {
            proof {
                lemma_length_delimited_read_len(rest);
            }
            input.set_last_tag(Some(Tag::new(FieldNumber::new_unchecked(11), WireType::LengthDelimited)));
            match <RepeatedField<i32> as RepeatedValue<Packed<raw::Int32>>>::add_entries_from(&mut self.weak_dependency, input) {
                Ok(()) => {},
                Err(e) => return Err(e),
            }
        } else if t == 98u32 {
            proof {
                <raw::String as Value>::lemma_decoding_len(rest);
            }
            input.set_last_tag(Some(Tag::new(FieldNumber::new_unchecked(12), WireType::LengthDelimited)));
            match <raw::String as Value>::merge_from(self.syntax.get_or_insert(std::string::String::new()), input) {
                Ok(()) => {},
                Err(e) => return Err(e),
            }
        } else {
            let tag = match Tag::try_from(t) {
                Ok(tag) => tag,
                Err(_) => return Err(ReadError::InvalidTag(t)),
            };
            input.set_last_tag(Some(tag));
            match self.unknown_fields.try_add_field_from(input) {
                Ok(TryRead::Consumed) => {},
                Ok(TryRead::Yielded) => match input.skip() {
                    Ok(()) => {},
                    Err(e) => return Err(e),
                },
                Err(e) => return Err(e),
            }
        }
        let rem1 = input.remaining();
        Ok(())
    }

    /// Merges the message with fields read from the reader, up to its limit. Scalar fields
    /// read replace those set, message fields are merged, repeated fields are added to,
    /// and unknown fields are stored or skipped as the reader says. On an error the message
    /// may hold some of the fields read before it.
    #[verifier::spinoff_prover]
    #[verifier::rlimit(50)]
    pub fn merge_from(&mut self, input: &mut CodedReader) -> (r: ReadResult<()>)
        ensures
            merge_outcome(file_descriptor_proto_merged(old(self)@, old(input).available(), old(input).depth(), old(input).recursion_limit(), skips(*old(input)), old(input).end_group_view()), final(self)@, *old(input), *final(input), r),
    {
        let rem0 = input.remaining();
        let ghost start = *input;
        let ghost total = file_descriptor_proto_merged(self@, input.available(), input.depth(), input.recursion_limit(), skips(*input), input.end_group_view());
        loop
            invariant
                start == *old(input),
                same_state(start, *input),
                0 <= start.position() <= input.position(),
                input.limit_end() <= input.input().len(),
                total == file_descriptor_proto_merged(old(self)@, start.available(), start.depth(), start.recursion_limit(), skips(start), start.end_group_view()),
                total == file_descriptor_proto_merged(self@, input.available(), start.depth(), start.recursion_limit(), skips(start), start.end_group_view()),
            decreases input.available().len(),
        {
            let ghost s = input.available();
            let ghost before = *input;
            let ghost v = self@;
            let t = match input.read_field() {
                Ok(Some(t)) => t,
                Ok(None) => return Ok(()),
                Err(e) => return Err(e),
            };
            let rem1 = input.remaining();
            let ghost n = input.position() - before.position();
            proof {
                lemma_varint_read_len(s);
                assert(input.available() =~= s.skip(n));
            }
            let ghost mid = *input;
            match self.merge_field(t, input) {
                Ok(()) => {},
                Err(e) => return Err(e),
            }
            let rem2 = input.remaining();
            proof {
                let m = input.position() - mid.position();
                assert(input.available() =~= s.skip(n + m));
            }
        }
    }
}

impl crate::Message for FileDescriptorProto {
    open spec fn merged(v: FileDescriptorProtoView, s: Seq<u8>, depth: nat, limit: nat, skip: bool, eg: Option<Tag>) -> ReadResult<FileDescriptorProtoView> {
        file_descriptor_proto_merged(v, s, depth, limit, skip, eg)
    }

    open spec fn parts(v: FileDescriptorProtoView) -> Seq<(bool, Seq<u8>)> {
        file_descriptor_proto_parts(v)
    }

    open spec fn initialized(v: FileDescriptorProtoView) -> bool {
        true
    }

    open spec fn unknown_fields_of(v: FileDescriptorProtoView) -> Seq<(u32, Seq<FieldValue>)> {
        v.unknown_fields
    }

    open spec fn with_unknown_fields(v: FileDescriptorProtoView, u: Seq<(u32, Seq<FieldValue>)>) -> FileDescriptorProtoView {
        FileDescriptorProtoView { unknown_fields: u, ..v }
    }

    fn merge_from(&mut self, input: &mut CodedReader) -> (r: ReadResult<()>) {
        FileDescriptorProto::merge_from(self, input)
    }

    fn calculate_size(&self) -> (r: Option<Length>) {
        FileDescriptorProto::calculate_size(self)
    }

    fn write_to(&self, output: &mut CodedWriter) -> (r: WriteResult) {
        FileDescriptorProto::write_to(self, output)
    }

    fn is_initialized(&self) -> (r: bool) {
        FileDescriptorProto::is_initialized(self)
    }

    fn unknown_fields(&self) -> (r: &UnknownFieldSet) {
        FileDescriptorProto::unknown_fields(self)
    }

    fn unknown_fields_mut(&mut self) -> (r: &mut UnknownFieldSet) {
        FileDescriptorProto::unknown_fields_mut(self)
    }
}

impl DebugMessage for FileDescriptorProto {
    open spec fn spec_full_name() -> Seq<char> {
        "google.protobuf.FileDescriptorProto"@
    }

    open spec fn spec_name() -> Seq<char> {
        "FileDescriptorProto"@
    }

    fn full_name() -> (r: &'static str) {
        "google.protobuf.FileDescriptorProto"
    }

    fn name() -> (r: &'static str) {
        "FileDescriptorProto"
    }
}

/// Whether `t` is the tag of a field a `FileDescriptorProto` reads.
pub open spec fn file_descriptor_proto_known_tag(t: u32) -> bool {
    t == 10u32 || t == 18u32 || t == 26u32 || t == 34u32 || t == 42u32 || t == 50u32 || t == 58u32 || t == 66u32 || t == 74u32 || t == 80u32 || t == 82u32 || t == 88u32 || t == 90u32 || t == 98u32
}

/// Whether a `FileDescriptorProto` is read back as it is written, at nesting depth `depth` of a reader with
/// recursion limit `limit`: its messages are read back as written one level deeper, within
/// the limit; and its unknown fields are read back as written, none with the tag of one of
/// its fields.
pub open spec fn file_descriptor_proto_roundtrips(v: FileDescriptorProtoView, depth: nat, limit: nat) -> bool
{
    &&& (v.options matches Some(y) ==> depth < limit && file_options_roundtrips(y, depth + 1, limit))
    &&& (v.source_code_info matches Some(y) ==> depth < limit && source_code_info_roundtrips(y, depth + 1, limit))
    &&& (v.message_type.len() > 0 ==> depth < limit)
    &&& forall|i: int| 0 <= i < v.message_type.len() ==> descriptor_proto_roundtrips(#[trigger] v.message_type[i], depth + 1, limit)
    &&& (v.enum_type.len() > 0 ==> depth < limit)
    &&& forall|i: int| 0 <= i < v.enum_type.len() ==> enum_descriptor_proto_roundtrips(#[trigger] v.enum_type[i], depth + 1, limit)
    &&& (v.service.len() > 0 ==> depth < limit)
    &&& forall|i: int| 0 <= i < v.service.len() ==> service_descriptor_proto_roundtrips(#[trigger] v.service[i], depth + 1, limit)
    &&& (v.extension.len() > 0 ==> depth < limit)
    &&& forall|i: int| 0 <= i < v.extension.len() ==> field_descriptor_proto_roundtrips(#[trigger] v.extension[i], depth + 1, limit)
    &&& set_readable(v.unknown_fields)
    &&& forall|k: int| 0 <= k < set_pairs(v.unknown_fields).len() ==> !file_descriptor_proto_known_tag(tag_value(
        #[trigger] set_pairs(v.unknown_fields)[k].0,
        field_value_wire_type(set_pairs(v.unknown_fields)[k].1),
    ))
}

/// Reading a `FileDescriptorProto` field whose tag is read from the front of `s` and whose value is read after
/// it continues with the rest of `s`.
proof fn lemma_file_descriptor_proto_step(v: FileDescriptorProtoView, s: Seq<u8>, k: int, t: u32, m: int, v2: FileDescriptorProtoView, depth: nat, limit: nat)
    requires
        varint_read(s) == Ok::<(int, u64), ReadError>((k, t as u64)),
        1 <= k <= s.len(),
        file_descriptor_proto_field_read(v, t, s.skip(k), depth, limit, false, None) == Ok::<(int, FileDescriptorProtoView), ReadError>((m, v2)),
        0 <= m,
        k + m <= s.len(),
    ensures
        file_descriptor_proto_merged(v, s, depth, limit, false, None) == file_descriptor_proto_merged(v2, s.skip(k + m), depth, limit, false, None),
{
    assert((t as u64) as u32 == t);
}

/// Reading the values written unpacked as field `dependency` of a `FileDescriptorProto` adds the values.
proof fn lemma_file_descriptor_proto_read_dependency(v: FileDescriptorProtoView, vs: Seq<Seq<char>>, rest: Seq<u8>, depth: nat, limit: nat)
    requires
        forall|i: int| 0 <= i < vs.len() ==> <raw::String as Value>::encodable(#[trigger] vs[i]),
    ensures
        file_descriptor_proto_merged(v, parts_bytes(unpacked_parts::<raw::String>(3u32, vs)) + rest, depth, limit, false, None) == file_descriptor_proto_merged(
            FileDescriptorProtoView { dependency: v.dependency + vs, ..v },
            rest,
            depth, limit, false, None,
        ),
    decreases vs.len(),
{
    if vs.len() == 0 {
        assert(parts_bytes(unpacked_parts::<raw::String>(3u32, vs)) + rest =~= rest);
        assert(v.dependency + vs =~= v.dependency);
    } else {
        let x = vs[0];
        let tail = vs.drop_first();
        assert forall|i: int| 0 <= i < tail.len() implies <raw::String as Value>::encodable(#[trigger] tail[i]) by {
            assert(tail[i] == vs[i + 1]);
        }
        lemma_unpacked_front::<raw::String>(3u32, vs);
        lemma_parts_bytes_append(field_parts::<raw::String>(3u32, x), unpacked_parts::<raw::String>(3u32, tail));
        let after = parts_bytes(unpacked_parts::<raw::String>(3u32, tail)) + rest;
        let s = parts_bytes(unpacked_parts::<raw::String>(3u32, vs)) + rest;
        assert(s =~= parts_bytes(field_parts::<raw::String>(3u32, x)) + after);
        lemma_field_bytes_read::<raw::String>(3u32, x, after);
        lemma_tag_value(3u32, WireType::LengthDelimited);
        let hl = parts_bytes(field_parts::<raw::String>(3u32, x)).len() as int;
        let k = varint_len(26u64) as int;
        let v2 = FileDescriptorProtoView { dependency: v.dependency + seq![x], ..v };
        lemma_file_descriptor_proto_step(v, s, k, 26u32, hl - k, v2, depth, limit);
        lemma_file_descriptor_proto_read_dependency(v2, tail, rest, depth, limit);
        assert(v.dependency + seq![x] + tail =~= v.dependency + vs);
    }
}

/// Reading the values written unpacked as field `public_dependency` of a `FileDescriptorProto` adds the values.
proof fn lemma_file_descriptor_proto_read_public_dependency(v: FileDescriptorProtoView, vs: Seq<i32>, rest: Seq<u8>, depth: nat, limit: nat)
    requires
        forall|i: int| 0 <= i < vs.len() ==> <raw::Int32 as Value>::encodable(#[trigger] vs[i]),
    ensures
        file_descriptor_proto_merged(v, parts_bytes(unpacked_parts::<raw::Int32>(10u32, vs)) + rest, depth, limit, false, None) == file_descriptor_proto_merged(
            FileDescriptorProtoView { public_dependency: v.public_dependency + vs, ..v },
            rest,
            depth, limit, false, None,
        ),
    decreases vs.len(),
{
    if vs.len() == 0 {
        assert(parts_bytes(unpacked_parts::<raw::Int32>(10u32, vs)) + rest =~= rest);
        assert(v.public_dependency + vs =~= v.public_dependency);
    } else {
        let x = vs[0];
        let tail = vs.drop_first();
        assert forall|i: int| 0 <= i < tail.len() implies <raw::Int32 as Value>::encodable(#[trigger] tail[i]) by {
            assert(tail[i] == vs[i + 1]);
        }
        lemma_unpacked_front::<raw::Int32>(10u32, vs);
        lemma_parts_bytes_append(field_parts::<raw::Int32>(10u32, x), unpacked_parts::<raw::Int32>(10u32, tail));
        let after = parts_bytes(unpacked_parts::<raw::Int32>(10u32, tail)) + rest;
        let s = parts_bytes(unpacked_parts::<raw::Int32>(10u32, vs)) + rest;
        assert(s =~= parts_bytes(field_parts::<raw::Int32>(10u32, x)) + after);
        lemma_field_bytes_read::<raw::Int32>(10u32, x, after);
        lemma_tag_value(10u32, WireType::Varint);
        let hl = parts_bytes(field_parts::<raw::Int32>(10u32, x)).len() as int;
        let k = varint_len(80u64) as int;
        let v2 = FileDescriptorProtoView { public_dependency: v.public_dependency + seq![x], ..v };
        lemma_file_descriptor_proto_step(v, s, k, 80u32, hl - k, v2, depth, limit);
        lemma_file_descriptor_proto_read_public_dependency(v2, tail, rest, depth, limit);
        assert(v.public_dependency + seq![x] + tail =~= v.public_dependency + vs);
    }
}

/// Reading the values written unpacked as field `weak_dependency` of a `FileDescriptorProto` adds the values.
proof fn lemma_file_descriptor_proto_read_weak_dependency(v: FileDescriptorProtoView, vs: Seq<i32>, rest: Seq<u8>, depth: nat, limit: nat)
    requires
        forall|i: int| 0 <= i < vs.len() ==> <raw::Int32 as Value>::encodable(#[trigger] vs[i]),
    ensures
        file_descriptor_proto_merged(v, parts_bytes(unpacked_parts::<raw::Int32>(11u32, vs)) + rest, depth, limit, false, None) == file_descriptor_proto_merged(
            FileDescriptorProtoView { weak_dependency: v.weak_dependency + vs, ..v },
            rest,
            depth, limit, false, None,
        ),
    decreases vs.len(),
{
    if vs.len() == 0 {
        assert(parts_bytes(unpacked_parts::<raw::Int32>(11u32, vs)) + rest =~= rest);
        assert(v.weak_dependency + vs =~= v.weak_dependency);
    } else {
        let x = vs[0];
        let tail = vs.drop_first();
        assert forall|i: int| 0 <= i < tail.len() implies <raw::Int32 as Value>::encodable(#[trigger] tail[i]) by {
            assert(tail[i] == vs[i + 1]);
        }
        lemma_unpacked_front::<raw::Int32>(11u32, vs);
        lemma_parts_bytes_append(field_parts::<raw::Int32>(11u32, x), unpacked_parts::<raw::Int32>(11u32, tail));
        let after = parts_bytes(unpacked_parts::<raw::Int32>(11u32, tail)) + rest;
        let s = parts_bytes(unpacked_parts::<raw::Int32>(11u32, vs)) + rest;
        assert(s =~= parts_bytes(field_parts::<raw::Int32>(11u32, x)) + after);
        lemma_field_bytes_read::<raw::Int32>(11u32, x, after);
        lemma_tag_value(11u32, WireType::Varint);
        let hl = parts_bytes(field_parts::<raw::Int32>(11u32, x)).len() as int;
        let k = varint_len(88u64) as int;
        let v2 = FileDescriptorProtoView { weak_dependency: v.weak_dependency + seq![x], ..v };
        lemma_file_descriptor_proto_step(v, s, k, 88u32, hl - k, v2, depth, limit);
        lemma_file_descriptor_proto_read_weak_dependency(v2, tail, rest, depth, limit);
        assert(v.weak_dependency + seq![x] + tail =~= v.weak_dependency + vs);
    }
}

/// Reading the entries of `DescriptorProto` values written as field `message_type` of a `FileDescriptorProto` adds the values.
#[verifier::spinoff_prover]
#[verifier::rlimit(60)]
proof fn lemma_file_descriptor_proto_read_message_type(v: FileDescriptorProtoView, ys: Seq<DescriptorProtoView>, rest: Seq<u8>, depth: nat, limit: nat)
    requires
        parts_encodable(descriptor_proto_seq_parts(4u32, ys)),
        ys.len() > 0 ==> depth < limit,
        forall|i: int| 0 <= i < ys.len() ==> descriptor_proto_roundtrips(#[trigger] ys[i], depth + 1, limit),
    ensures
        file_descriptor_proto_merged(v, parts_bytes(descriptor_proto_seq_parts(4u32, ys)) + rest, depth, limit, false, None) == file_descriptor_proto_merged(
            FileDescriptorProtoView { message_type: v.message_type + ys, ..v },
            rest,
            depth, limit, false, None,
        ),
    decreases ys.len(),
{
    if ys.len() == 0 {
        assert(parts_bytes(descriptor_proto_seq_parts(4u32, ys)) + rest =~= rest);
        assert(v.message_type + ys =~= v.message_type);
    } else {
        let y = ys[0];
        let tail = ys.drop_first();
        assert forall|i: int| 0 <= i < tail.len() implies descriptor_proto_roundtrips(#[trigger] tail[i], depth + 1, limit) by {
            assert(tail[i] == ys[i + 1]);
        }
        lemma_descriptor_proto_seq_parts_front(4u32, ys);
        let ep = entry_parts(4u32, descriptor_proto_parts(y));
        lemma_parts_encodable_two(ep, descriptor_proto_seq_parts(4u32, tail));
        lemma_parts_bytes_append(ep, descriptor_proto_seq_parts(4u32, tail));
        assert(ep[1].0);
        let after = parts_bytes(descriptor_proto_seq_parts(4u32, tail)) + rest;
        let s = parts_bytes(descriptor_proto_seq_parts(4u32, ys)) + rest;
        assert(s =~= parts_bytes(ep) + after);
        lemma_entry_bytes_read(4u32, descriptor_proto_parts(y), after);
        lemma_tag_value(4u32, WireType::LengthDelimited);
        lemma_descriptor_proto_roundtrip(y, depth + 1, limit);
        let hl = parts_bytes(ep).len() as int;
        let k = varint_len(34u64) as int;
        let v2 = FileDescriptorProtoView { message_type: v.message_type.push(y), ..v };
        lemma_file_descriptor_proto_step(v, s, k, 34u32, hl - k, v2, depth, limit);
        lemma_file_descriptor_proto_read_message_type(v2, tail, rest, depth, limit);
        assert(v.message_type.push(y) + tail =~= v.message_type + ys);
    }
}

/// Reading the entries of `EnumDescriptorProto` values written as field `enum_type` of a `FileDescriptorProto` adds the values.
#[verifier::spinoff_prover]
#[verifier::rlimit(60)]
proof fn lemma_file_descriptor_proto_read_enum_type(v: FileDescriptorProtoView, ys: Seq<EnumDescriptorProtoView>, rest: Seq<u8>, depth: nat, limit: nat)
    requires
        parts_encodable(enum_descriptor_proto_seq_parts(5u32, ys)),
        ys.len() > 0 ==> depth < limit,
        forall|i: int| 0 <= i < ys.len() ==> enum_descriptor_proto_roundtrips(#[trigger] ys[i], depth + 1, limit),
    ensures
        file_descriptor_proto_merged(v, parts_bytes(enum_descriptor_proto_seq_parts(5u32, ys)) + rest, depth, limit, false, None) == file_descriptor_proto_merged(
            FileDescriptorProtoView { enum_type: v.enum_type + ys, ..v },
            rest,
            depth, limit, false, None,
        ),
    decreases ys.len(),
{
    if ys.len() == 0 {
        assert(parts_bytes(enum_descriptor_proto_seq_parts(5u32, ys)) + rest =~= rest);
        assert(v.enum_type + ys =~= v.enum_type);
    } else {
        let y = ys[0];
        let tail = ys.drop_first();
        assert forall|i: int| 0 <= i < tail.len() implies enum_descriptor_proto_roundtrips(#[trigger] tail[i], depth + 1, limit) by {
            assert(tail[i] == ys[i + 1]);
        }
        lemma_enum_descriptor_proto_seq_parts_front(5u32, ys);
        let ep = entry_parts(5u32, enum_descriptor_proto_parts(y));
        lemma_parts_encodable_two(ep, enum_descriptor_proto_seq_parts(5u32, tail));
        lemma_parts_bytes_append(ep, enum_descriptor_proto_seq_parts(5u32, tail));
        assert(ep[1].0);
        let after = parts_bytes(enum_descriptor_proto_seq_parts(5u32, tail)) + rest;
        let s = parts_bytes(enum_descriptor_proto_seq_parts(5u32, ys)) + rest;
        assert(s =~= parts_bytes(ep) + after);
        lemma_entry_bytes_read(5u32, enum_descriptor_proto_parts(y), after);
        lemma_tag_value(5u32, WireType::LengthDelimited);
        lemma_enum_descriptor_proto_roundtrip(y, depth + 1, limit);
        let hl = parts_bytes(ep).len() as int;
        let k = varint_len(42u64) as int;
        let v2 = FileDescriptorProtoView { enum_type: v.enum_type.push(y), ..v };
        lemma_file_descriptor_proto_step(v, s, k, 42u32, hl - k, v2, depth, limit);
        lemma_file_descriptor_proto_read_enum_type(v2, tail, rest, depth, limit);
        assert(v.enum_type.push(y) + tail =~= v.enum_type + ys);
    }
}

/// Reading the entries of `ServiceDescriptorProto` values written as field `service` of a `FileDescriptorProto` adds the values.
#[verifier::spinoff_prover]
#[verifier::rlimit(60)]
proof fn lemma_file_descriptor_proto_read_service(v: FileDescriptorProtoView, ys: Seq<ServiceDescriptorProtoView>, rest: Seq<u8>, depth: nat, limit: nat)
    requires
        parts_encodable(service_descriptor_proto_seq_parts(6u32, ys)),
        ys.len() > 0 ==> depth < limit,
        forall|i: int| 0 <= i < ys.len() ==> service_descriptor_proto_roundtrips(#[trigger] ys[i], depth + 1, limit),
    ensures
        file_descriptor_proto_merged(v, parts_bytes(service_descriptor_proto_seq_parts(6u32, ys)) + rest, depth, limit, false, None) == file_descriptor_proto_merged(
            FileDescriptorProtoView { service: v.service + ys, ..v },
            rest,
            depth, limit, false, None,
        ),
    decreases ys.len(),
{
    if ys.len() == 0 {
        assert(parts_bytes(service_descriptor_proto_seq_parts(6u32, ys)) + rest =~= rest);
        assert(v.service + ys =~= v.service);
    } else {
        let y = ys[0];
        let tail = ys.drop_first();
        assert forall|i: int| 0 <= i < tail.len() implies service_descriptor_proto_roundtrips(#[trigger] tail[i], depth + 1, limit) by {
            assert(tail[i] == ys[i + 1]);
        }
        lemma_service_descriptor_proto_seq_parts_front(6u32, ys);
        let ep = entry_parts(6u32, service_descriptor_proto_parts(y));
        lemma_parts_encodable_two(ep, service_descriptor_proto_seq_parts(6u32, tail));
        lemma_parts_bytes_append(ep, service_descriptor_proto_seq_parts(6u32, tail));
        assert(ep[1].0);
        let after = parts_bytes(service_descriptor_proto_seq_parts(6u32, tail)) + rest;
        let s = parts_bytes(service_descriptor_proto_seq_parts(6u32, ys)) + rest;
        assert(s =~= parts_bytes(ep) + after);
        lemma_entry_bytes_read(6u32, service_descriptor_proto_parts(y), after);
        lemma_tag_value(6u32, WireType::LengthDelimited);
        lemma_service_descriptor_proto_roundtrip(y, depth + 1, limit);
        let hl = parts_bytes(ep).len() as int;
        let k = varint_len(50u64) as int;
        let v2 = FileDescriptorProtoView { service: v.service.push(y), ..v };
        lemma_file_descriptor_proto_step(v, s, k, 50u32, hl - k, v2, depth, limit);
        lemma_file_descriptor_proto_read_service(v2, tail, rest, depth, limit);
        assert(v.service.push(y) + tail =~= v.service + ys);
    }
}

/// Reading the entries of `FieldDescriptorProto` values written as field `extension` of a `FileDescriptorProto` adds the values.
#[verifier::spinoff_prover]
#[verifier::rlimit(60)]
proof fn lemma_file_descriptor_proto_read_extension(v: FileDescriptorProtoView, ys: Seq<FieldDescriptorProtoView>, rest: Seq<u8>, depth: nat, limit: nat)
    requires
        parts_encodable(field_descriptor_proto_seq_parts(7u32, ys)),
        ys.len() > 0 ==> depth < limit,
        forall|i: int| 0 <= i < ys.len() ==> field_descriptor_proto_roundtrips(#[trigger] ys[i], depth + 1, limit),
    ensures
        file_descriptor_proto_merged(v, parts_bytes(field_descriptor_proto_seq_parts(7u32, ys)) + rest, depth, limit, false, None) == file_descriptor_proto_merged(
            FileDescriptorProtoView { extension: v.extension + ys, ..v },
            rest,
            depth, limit, false, None,
        ),
    decreases ys.len(),
{
    if ys.len() == 0 {
        assert(parts_bytes(field_descriptor_proto_seq_parts(7u32, ys)) + rest =~= rest);
        assert(v.extension + ys =~= v.extension);
    } else {
        let y = ys[0];
        let tail = ys.drop_first();
        assert forall|i: int| 0 <= i < tail.len() implies field_descriptor_proto_roundtrips(#[trigger] tail[i], depth + 1, limit) by {
            assert(tail[i] == ys[i + 1]);
        }
        lemma_field_descriptor_proto_seq_parts_front(7u32, ys);
        let ep = entry_parts(7u32, field_descriptor_proto_parts(y));
        lemma_parts_encodable_two(ep, field_descriptor_proto_seq_parts(7u32, tail));
        lemma_parts_bytes_append(ep, field_descriptor_proto_seq_parts(7u32, tail));
        assert(ep[1].0);
        let after = parts_bytes(field_descriptor_proto_seq_parts(7u32, tail)) + rest;
        let s = parts_bytes(field_descriptor_proto_seq_parts(7u32, ys)) + rest;
        assert(s =~= parts_bytes(ep) + after);
        lemma_entry_bytes_read(7u32, field_descriptor_proto_parts(y), after);
        lemma_tag_value(7u32, WireType::LengthDelimited);
        lemma_field_descriptor_proto_roundtrip(y, depth + 1, limit);
        let hl = parts_bytes(ep).len() as int;
        let k = varint_len(58u64) as int;
        let v2 = FileDescriptorProtoView { extension: v.extension.push(y), ..v };
        lemma_file_descriptor_proto_step(v, s, k, 58u32, hl - k, v2, depth, limit);
        lemma_file_descriptor_proto_read_extension(v2, tail, rest, depth, limit);
        assert(v.extension.push(y) + tail =~= v.extension + ys);
    }
}

/// Reading the field `name` of a `FileDescriptorProto` written from `o` sets it to `o`, whatever it held; nothing
/// is written, and nothing changes, for `None`.
proof fn lemma_file_descriptor_proto_read_name(d: FileDescriptorProtoView, o: Option<Seq<char>>, rest: Seq<u8>, depth: nat, limit: nat)
    requires
        parts_encodable(opt_field_parts::<raw::String>(1u32, o)),
    ensures
        file_descriptor_proto_merged(d, parts_bytes(opt_field_parts::<raw::String>(1u32, o)) + rest, depth, limit, false, None) == file_descriptor_proto_merged(if o is Some { FileDescriptorProtoView { name: o, ..d } } else { d }, rest, depth, limit, false, None),
{
    match o {
        None => {
            assert(parts_bytes(opt_field_parts::<raw::String>(1u32, o)) + rest =~= rest);
        },
        Some(x) => {
            let p = field_parts::<raw::String>(1u32, x);
            assert(p[1].0);
            let s = parts_bytes(p) + rest;
            lemma_field_bytes_read::<raw::String>(1u32, x, rest);
            lemma_tag_value(1u32, WireType::LengthDelimited);
            let hl = parts_bytes(p).len() as int;
            let k = varint_len(10u64) as int;
            let v2 = FileDescriptorProtoView { name: Some(x), ..d };
            lemma_file_descriptor_proto_step(d, s, k, 10u32, hl - k, v2, depth, limit);
        },
    }
}

/// Reading the field `package` of a `FileDescriptorProto` written from `o` sets it to `o`, whatever it held; nothing
/// is written, and nothing changes, for `None`.
proof fn lemma_file_descriptor_proto_read_package(d: FileDescriptorProtoView, o: Option<Seq<char>>, rest: Seq<u8>, depth: nat, limit: nat)
    requires
        parts_encodable(opt_field_parts::<raw::String>(2u32, o)),
    ensures
        file_descriptor_proto_merged(d, parts_bytes(opt_field_parts::<raw::String>(2u32, o)) + rest, depth, limit, false, None) == file_descriptor_proto_merged(if o is Some { FileDescriptorProtoView { package: o, ..d } } else { d }, rest, depth, limit, false, None),
{
    match o {
        None => {
            assert(parts_bytes(opt_field_parts::<raw::String>(2u32, o)) + rest =~= rest);
        },
        Some(x) => {
            let p = field_parts::<raw::String>(2u32, x);
            assert(p[1].0);
            let s = parts_bytes(p) + rest;
            lemma_field_bytes_read::<raw::String>(2u32, x, rest);
            lemma_tag_value(2u32, WireType::LengthDelimited);
            let hl = parts_bytes(p).len() as int;
            let k = varint_len(18u64) as int;
            let v2 = FileDescriptorProtoView { package: Some(x), ..d };
            lemma_file_descriptor_proto_step(d, s, k, 18u32, hl - k, v2, depth, limit);
        },
    }
}

/// Reading the field `options` of a `FileDescriptorProto` written from `o`, where the message does not hold it,
/// sets it to `o`; nothing is written, and nothing changes, for `None`.
#[verifier::rlimit(40)]
proof fn lemma_file_descriptor_proto_read_options(d: FileDescriptorProtoView, o: Option<FileOptionsView>, rest: Seq<u8>, depth: nat, limit: nat)
    requires
        o is Some ==> d.options is None,
        parts_encodable(file_options_opt_parts(8u32, o)),
        o matches Some(y) ==> depth < limit && file_options_roundtrips(y, depth + 1, limit),
    ensures
        file_descriptor_proto_merged(d, parts_bytes(file_options_opt_parts(8u32, o)) + rest, depth, limit, false, None) == file_descriptor_proto_merged(if o is Some { FileDescriptorProtoView { options: o, ..d } } else { d }, rest, depth, limit, false, None),
{
    match o {
        None => {
            assert(parts_bytes(file_options_opt_parts(8u32, o)) + rest =~= rest);
        },
        Some(y) => {
            let ep = entry_parts(8u32, file_options_parts(y));
            assert(ep[1].0);
            let s = parts_bytes(ep) + rest;
            lemma_entry_bytes_read(8u32, file_options_parts(y), rest);
            lemma_tag_value(8u32, WireType::LengthDelimited);
            lemma_parts_encodable_two(entry_head(8u32, file_options_parts(y)), file_options_parts(y));
            lemma_file_options_roundtrip(y, depth + 1, limit);
            let hl = parts_bytes(ep).len() as int;
            let k = varint_len(66u64) as int;
            let v2 = FileDescriptorProtoView { options: Some(y), ..d };
            lemma_file_descriptor_proto_step(d, s, k, 66u32, hl - k, v2, depth, limit);
            assert(s.skip(hl) == rest);
        },
    }
}

/// Reading the field `options` of a `FileDescriptorProto` merges what is read into the value the message already
/// holds there (or into a default value, where it holds none): the field read from the bytes
/// written from `y` becomes the existing value with the bytes of `y` merged into it, and the
/// rest is read into the message so changed. Past the recursion limit the read is refused.
#[verifier::rlimit(40)]
pub proof fn lemma_file_descriptor_proto_merge_options(d: FileDescriptorProtoView, y: FileOptionsView, rest: Seq<u8>, depth: nat, limit: nat)
    requires
        parts_encodable(file_options_opt_parts(8u32, Some(y))),
    ensures
        file_descriptor_proto_merged(d, parts_bytes(file_options_opt_parts(8u32, Some(y))) + rest, depth, limit, false, None) == if depth >= limit {
            Err::<FileDescriptorProtoView, ReadError>(ReadError::RecursionLimitExceeded)
        } else {
            match file_options_merged(match d.options { Some(o) => o, None => file_options_default() }, parts_bytes(file_options_parts(y)), depth + 1, limit, false, None) {
                Ok(z) => file_descriptor_proto_merged(FileDescriptorProtoView { options: Some(z), ..d }, rest, depth, limit, false, None),
                Err(e) => Err(e),
            }
        },
{
    let ep = entry_parts(8u32, file_options_parts(y));
    assert(file_options_opt_parts(8u32, Some(y)) == ep);
    assert(ep[1].0);
    let s = parts_bytes(ep) + rest;
    lemma_entry_bytes_read(8u32, file_options_parts(y), rest);
    lemma_tag_value(8u32, WireType::LengthDelimited);
    let hl = parts_bytes(ep).len() as int;
    let k = varint_len(66u64) as int;
    assert((66u64 as u64) as u32 == 66u32);
    if depth < limit {
        match file_options_merged(match d.options { Some(o) => o, None => file_options_default() }, parts_bytes(file_options_parts(y)), depth + 1, limit, false, None) {
            Ok(z) => {
                let v2 = FileDescriptorProtoView { options: Some(z), ..d };
                lemma_file_descriptor_proto_step(d, s, k, 66u32, hl - k, v2, depth, limit);
                assert(s.skip(hl) == rest);
            },
            Err(e) => {},
        }
    }
}

/// Merging the bytes written for the field `options` of a `FileDescriptorProto` from `y` into `d` merges `y` into
/// the value `d` holds there (or into a default value, where it holds none), as merging
/// messages does, where `y` is read back as written and the existing value holds none of the
/// message fields `y` holds.
pub proof fn lemma_file_descriptor_proto_merge_options_written(d: FileDescriptorProtoView, y: FileOptionsView, rest: Seq<u8>, depth: nat, limit: nat)
    requires
        parts_encodable(file_options_opt_parts(8u32, Some(y))),
        depth < limit,
        file_options_roundtrips(y, depth + 1, limit),
    ensures
        file_descriptor_proto_merged(d, parts_bytes(file_options_opt_parts(8u32, Some(y))) + rest, depth, limit, false, None) == file_descriptor_proto_merged(FileDescriptorProtoView { options: Some(file_options_merge_view(match d.options { Some(o) => o, None => file_options_default() }, y)), ..d }, rest, depth, limit, false, None),
{
    lemma_file_descriptor_proto_merge_options(d, y, rest, depth, limit);
    lemma_parts_encodable_two(entry_head(8u32, file_options_parts(y)), file_options_parts(y));
    assert(file_options_opt_parts(8u32, Some(y)) == entry_parts(8u32, file_options_parts(y)));
    lemma_file_options_merge_written(match d.options { Some(o) => o, None => file_options_default() }, y, depth + 1, limit);
}

/// Reading the field `source_code_info` of a `FileDescriptorProto` written from `o`, where the message does not hold it,
/// sets it to `o`; nothing is written, and nothing changes, for `None`.
#[verifier::rlimit(40)]
proof fn lemma_file_descriptor_proto_read_source_code_info(d: FileDescriptorProtoView, o: Option<SourceCodeInfoView>, rest: Seq<u8>, depth: nat, limit: nat)
    requires
        o is Some ==> d.source_code_info is None,
        parts_encodable(source_code_info_opt_parts(9u32, o)),
        o matches Some(y) ==> depth < limit && source_code_info_roundtrips(y, depth + 1, limit),
    ensures
        file_descriptor_proto_merged(d, parts_bytes(source_code_info_opt_parts(9u32, o)) + rest, depth, limit, false, None) == file_descriptor_proto_merged(if o is Some { FileDescriptorProtoView { source_code_info: o, ..d } } else { d }, rest, depth, limit, false, None),
{
    match o {
        None => {
            assert(parts_bytes(source_code_info_opt_parts(9u32, o)) + rest =~= rest);
        },
        Some(y) => {
            let ep = entry_parts(9u32, source_code_info_parts(y));
            assert(ep[1].0);
            let s = parts_bytes(ep) + rest;
            lemma_entry_bytes_read(9u32, source_code_info_parts(y), rest);
            lemma_tag_value(9u32, WireType::LengthDelimited);
            lemma_parts_encodable_two(entry_head(9u32, source_code_info_parts(y)), source_code_info_parts(y));
            lemma_source_code_info_roundtrip(y, depth + 1, limit);
            let hl = parts_bytes(ep).len() as int;
            let k = varint_len(74u64) as int;
            let v2 = FileDescriptorProtoView { source_code_info: Some(y), ..d };
            lemma_file_descriptor_proto_step(d, s, k, 74u32, hl - k, v2, depth, limit);
            assert(s.skip(hl) == rest);
        },
    }
}

/// Reading the field `source_code_info` of a `FileDescriptorProto` merges what is read into the value the message already
/// holds there (or into a default value, where it holds none): the field read from the bytes
/// written from `y` becomes the existing value with the bytes of `y` merged into it, and the
/// rest is read into the message so changed. Past the recursion limit the read is refused.
#[verifier::rlimit(40)]
pub proof fn lemma_file_descriptor_proto_merge_source_code_info(d: FileDescriptorProtoView, y: SourceCodeInfoView, rest: Seq<u8>, depth: nat, limit: nat)
    requires
        parts_encodable(source_code_info_opt_parts(9u32, Some(y))),
    ensures
        file_descriptor_proto_merged(d, parts_bytes(source_code_info_opt_parts(9u32, Some(y))) + rest, depth, limit, false, None) == if depth >= limit {
            Err::<FileDescriptorProtoView, ReadError>(ReadError::RecursionLimitExceeded)
        } else {
            match source_code_info_merged(match d.source_code_info { Some(o) => o, None => source_code_info_default() }, parts_bytes(source_code_info_parts(y)), depth + 1, limit, false, None) {
                Ok(z) => file_descriptor_proto_merged(FileDescriptorProtoView { source_code_info: Some(z), ..d }, rest, depth, limit, false, None),
                Err(e) => Err(e),
            }
        },
{
    let ep = entry_parts(9u32, source_code_info_parts(y));
    assert(source_code_info_opt_parts(9u32, Some(y)) == ep);
    assert(ep[1].0);
    let s = parts_bytes(ep) + rest;
    lemma_entry_bytes_read(9u32, source_code_info_parts(y), rest);
    lemma_tag_value(9u32, WireType::LengthDelimited);
    let hl = parts_bytes(ep).len() as int;
    let k = varint_len(74u64) as int;
    assert((74u64 as u64) as u32 == 74u32);
    if depth < limit {
        match source_code_info_merged(match d.source_code_info { Some(o) => o, None => source_code_info_default() }, parts_bytes(source_code_info_parts(y)), depth + 1, limit, false, None) {
            Ok(z) => {
                let v2 = FileDescriptorProtoView { source_code_info: Some(z), ..d };
                lemma_file_descriptor_proto_step(d, s, k, 74u32, hl - k, v2, depth, limit);
                assert(s.skip(hl) == rest);
            },
            Err(e) => {},
        }
    }
}

/// Merging the bytes written for the field `source_code_info` of a `FileDescriptorProto` from `y` into `d` merges `y` into
/// the value `d` holds there (or into a default value, where it holds none), as merging
/// messages does, where `y` is read back as written and the existing value holds none of the
/// message fields `y` holds.
pub proof fn lemma_file_descriptor_proto_merge_source_code_info_written(d: FileDescriptorProtoView, y: SourceCodeInfoView, rest: Seq<u8>, depth: nat, limit: nat)
    requires
        parts_encodable(source_code_info_opt_parts(9u32, Some(y))),
        depth < limit,
        source_code_info_roundtrips(y, depth + 1, limit),
    ensures
        file_descriptor_proto_merged(d, parts_bytes(source_code_info_opt_parts(9u32, Some(y))) + rest, depth, limit, false, None) == file_descriptor_proto_merged(FileDescriptorProtoView { source_code_info: Some(source_code_info_merge_view(match d.source_code_info { Some(o) => o, None => source_code_info_default() }, y)), ..d }, rest, depth, limit, false, None),
{
    lemma_file_descriptor_proto_merge_source_code_info(d, y, rest, depth, limit);
    lemma_parts_encodable_two(entry_head(9u32, source_code_info_parts(y)), source_code_info_parts(y));
    assert(source_code_info_opt_parts(9u32, Some(y)) == entry_parts(9u32, source_code_info_parts(y)));
    lemma_source_code_info_merge_written(match d.source_code_info { Some(o) => o, None => source_code_info_default() }, y, depth + 1, limit);
}

/// Reading the field `syntax` of a `FileDescriptorProto` written from `o` sets it to `o`, whatever it held; nothing
/// is written, and nothing changes, for `None`.
proof fn lemma_file_descriptor_proto_read_syntax(d: FileDescriptorProtoView, o: Option<Seq<char>>, rest: Seq<u8>, depth: nat, limit: nat)
    requires
        parts_encodable(opt_field_parts::<raw::String>(12u32, o)),
    ensures
        file_descriptor_proto_merged(d, parts_bytes(opt_field_parts::<raw::String>(12u32, o)) + rest, depth, limit, false, None) == file_descriptor_proto_merged(if o is Some { FileDescriptorProtoView { syntax: o, ..d } } else { d }, rest, depth, limit, false, None),
{
    match o {
        None => {
            assert(parts_bytes(opt_field_parts::<raw::String>(12u32, o)) + rest =~= rest);
        },
        Some(x) => {
            let p = field_parts::<raw::String>(12u32, x);
            assert(p[1].0);
            let s = parts_bytes(p) + rest;
            lemma_field_bytes_read::<raw::String>(12u32, x, rest);
            lemma_tag_value(12u32, WireType::LengthDelimited);
            let hl = parts_bytes(p).len() as int;
            let k = varint_len(98u64) as int;
            let v2 = FileDescriptorProtoView { syntax: Some(x), ..d };
            lemma_file_descriptor_proto_step(d, s, k, 98u32, hl - k, v2, depth, limit);
        },
    }
}

/// Reading unknown field values written one after the other into a `FileDescriptorProto`, none with the tag
/// of one of its fields, adds them to its unknown fields.
#[verifier::rlimit(60)]
proof fn lemma_file_descriptor_proto_read_unknown(v: FileDescriptorProtoView, ps: Seq<(u32, FieldValue)>, rest: Seq<u8>, depth: nat, limit: nat)
    requires
        forall|k: int| 0 <= k < ps.len() ==> value_readable(#[trigger] ps[k].0, ps[k].1) && !file_descriptor_proto_known_tag(
            tag_value(ps[k].0, field_value_wire_type(ps[k].1)),
        ),
    ensures
        file_descriptor_proto_merged(v, parts_bytes(pairs_parts(ps)) + rest, depth, limit, false, None) == file_descriptor_proto_merged(
            FileDescriptorProtoView { unknown_fields: push_pairs(v.unknown_fields, ps), ..v },
            rest,
            depth, limit, false, None,
        ),
    decreases ps.len(),
{
    if ps.len() == 0 {
        assert(parts_bytes(pairs_parts(ps)) + rest =~= rest);
    } else {
        let n = ps[0].0;
        let fv = ps[0].1;
        let tail = ps.drop_first();
        assert forall|k: int| 0 <= k < tail.len() implies value_readable(#[trigger] tail[k].0, tail[k].1) && !file_descriptor_proto_known_tag(
            tag_value(tail[k].0, field_value_wire_type(tail[k].1)),
        ) by {
            assert(tail[k] == ps[k + 1]);
        }
        assert(value_readable(ps[0].0, ps[0].1));
        lemma_parts_bytes_append(field_value_parts(n, fv), pairs_parts(tail));
        let after = parts_bytes(pairs_parts(tail)) + rest;
        let s = parts_bytes(pairs_parts(ps)) + rest;
        assert(s =~= parts_bytes(field_value_parts(n, fv)) + after);
        lemma_read_value_bytes(n, fv, after);
        let t = tag_value(n, field_value_wire_type(fv));
        let hl = parts_bytes(field_value_parts(n, fv)).len() as int;
        let k = varint_len(t as u64) as int;
        let v2 = FileDescriptorProtoView { unknown_fields: view_push(v.unknown_fields, n, fv), ..v };
        lemma_file_descriptor_proto_step(v, s, k, t, hl - k, v2, depth, limit);
        lemma_file_descriptor_proto_read_unknown(v2, tail, rest, depth, limit);
    }
}

/// The writability of the parts of a `FileDescriptorProto` is that of each field's parts.
proof fn lemma_file_descriptor_proto_parts_encodable(v: FileDescriptorProtoView)
    ensures
        parts_encodable(file_descriptor_proto_parts(v)) == (parts_encodable(opt_field_parts::<raw::String>(1u32, v.name)) && parts_encodable(opt_field_parts::<raw::String>(2u32, v.package)) && parts_encodable(unpacked_parts::<raw::String>(3u32, v.dependency)) && parts_encodable(descriptor_proto_seq_parts(4u32, v.message_type)) && parts_encodable(enum_descriptor_proto_seq_parts(5u32, v.enum_type)) && parts_encodable(service_descriptor_proto_seq_parts(6u32, v.service)) && parts_encodable(field_descriptor_proto_seq_parts(7u32, v.extension)) && parts_encodable(file_options_opt_parts(8u32, v.options)) && parts_encodable(source_code_info_opt_parts(9u32, v.source_code_info)) && parts_encodable(unpacked_parts::<raw::Int32>(10u32, v.public_dependency)) && parts_encodable(unpacked_parts::<raw::Int32>(11u32, v.weak_dependency)) && parts_encodable(opt_field_parts::<raw::String>(12u32, v.syntax)) && parts_encodable(set_parts(v.unknown_fields))),
{
    reveal(file_descriptor_proto_parts);
    let p0 = opt_field_parts::<raw::String>(1u32, v.name);
    let p1 = opt_field_parts::<raw::String>(2u32, v.package);
    let p2 = unpacked_parts::<raw::String>(3u32, v.dependency);
    let p3 = descriptor_proto_seq_parts(4u32, v.message_type);
    let p4 = enum_descriptor_proto_seq_parts(5u32, v.enum_type);
    let p5 = service_descriptor_proto_seq_parts(6u32, v.service);
    let p6 = field_descriptor_proto_seq_parts(7u32, v.extension);
    let p7 = file_options_opt_parts(8u32, v.options);
    let p8 = source_code_info_opt_parts(9u32, v.source_code_info);
    let p9 = unpacked_parts::<raw::Int32>(10u32, v.public_dependency);
    let p10 = unpacked_parts::<raw::Int32>(11u32, v.weak_dependency);
    let p11 = opt_field_parts::<raw::String>(12u32, v.syntax);
    let p12 = set_parts(v.unknown_fields);
    let q12 = p12;
    let q11 = p11 + q12;
    lemma_parts_encodable_two(p11, q12);
    let q10 = p10 + q11;
    lemma_parts_encodable_two(p10, q11);
    let q9 = p9 + q10;
    lemma_parts_encodable_two(p9, q10);
    let q8 = p8 + q9;
    lemma_parts_encodable_two(p8, q9);
    let q7 = p7 + q8;
    lemma_parts_encodable_two(p7, q8);
    let q6 = p6 + q7;
    lemma_parts_encodable_two(p6, q7);
    let q5 = p5 + q6;
    lemma_parts_encodable_two(p5, q6);
    let q4 = p4 + q5;
    lemma_parts_encodable_two(p4, q5);
    let q3 = p3 + q4;
    lemma_parts_encodable_two(p3, q4);
    let q2 = p2 + q3;
    lemma_parts_encodable_two(p2, q3);
    let q1 = p1 + q2;
    lemma_parts_encodable_two(p1, q2);
    let q0 = p0 + q1;
    lemma_parts_encodable_two(p0, q1);
    assert(file_descriptor_proto_parts(v) == q0);
}

/// The bytes of the parts of a `FileDescriptorProto` are those of each field's parts, one after the other.
proof fn lemma_file_descriptor_proto_parts_bytes(v: FileDescriptorProtoView)
    ensures
        parts_bytes(file_descriptor_proto_parts(v)) == parts_bytes(opt_field_parts::<raw::String>(1u32, v.name)) + (parts_bytes(opt_field_parts::<raw::String>(2u32, v.package)) + (parts_bytes(unpacked_parts::<raw::String>(3u32, v.dependency)) + (parts_bytes(descriptor_proto_seq_parts(4u32, v.message_type)) + (parts_bytes(enum_descriptor_proto_seq_parts(5u32, v.enum_type)) + (parts_bytes(service_descriptor_proto_seq_parts(6u32, v.service)) + (parts_bytes(field_descriptor_proto_seq_parts(7u32, v.extension)) + (parts_bytes(file_options_opt_parts(8u32, v.options)) + (parts_bytes(source_code_info_opt_parts(9u32, v.source_code_info)) + (parts_bytes(unpacked_parts::<raw::Int32>(10u32, v.public_dependency)) + (parts_bytes(unpacked_parts::<raw::Int32>(11u32, v.weak_dependency)) + (parts_bytes(opt_field_parts::<raw::String>(12u32, v.syntax)) + parts_bytes(set_parts(v.unknown_fields))))))))))))),
{
    reveal(file_descriptor_proto_parts);
    let p0 = opt_field_parts::<raw::String>(1u32, v.name);
    let p1 = opt_field_parts::<raw::String>(2u32, v.package);
    let p2 = unpacked_parts::<raw::String>(3u32, v.dependency);
    let p3 = descriptor_proto_seq_parts(4u32, v.message_type);
    let p4 = enum_descriptor_proto_seq_parts(5u32, v.enum_type);
    let p5 = service_descriptor_proto_seq_parts(6u32, v.service);
    let p6 = field_descriptor_proto_seq_parts(7u32, v.extension);
    let p7 = file_options_opt_parts(8u32, v.options);
    let p8 = source_code_info_opt_parts(9u32, v.source_code_info);
    let p9 = unpacked_parts::<raw::Int32>(10u32, v.public_dependency);
    let p10 = unpacked_parts::<raw::Int32>(11u32, v.weak_dependency);
    let p11 = opt_field_parts::<raw::String>(12u32, v.syntax);
    let p12 = set_parts(v.unknown_fields);
    let q12 = p12;
    let q11 = p11 + q12;
    lemma_parts_bytes_append(p11, q12);
    let q10 = p10 + q11;
    lemma_parts_bytes_append(p10, q11);
    let q9 = p9 + q10;
    lemma_parts_bytes_append(p9, q10);
    let q8 = p8 + q9;
    lemma_parts_bytes_append(p8, q9);
    let q7 = p7 + q8;
    lemma_parts_bytes_append(p7, q8);
    let q6 = p6 + q7;
    lemma_parts_bytes_append(p6, q7);
    let q5 = p5 + q6;
    lemma_parts_bytes_append(p5, q6);
    let q4 = p4 + q5;
    lemma_parts_bytes_append(p4, q5);
    let q3 = p3 + q4;
    lemma_parts_bytes_append(p3, q4);
    let q2 = p2 + q3;
    lemma_parts_bytes_append(p2, q3);
    let q1 = p1 + q2;
    lemma_parts_bytes_append(p1, q2);
    let q0 = p0 + q1;
    lemma_parts_bytes_append(p0, q1);
    assert(file_descriptor_proto_parts(v) == q0);
}

/// The message a `FileDescriptorProto` `d` becomes when `v` is merged into it: each field `v` holds once
/// replaces the one `d` holds, the values of each repeated field of `v` follow those of `d`,
/// and the unknown fields of `v` are added to those of `d`, field number by field number.
pub open spec fn file_descriptor_proto_merge_view(d: FileDescriptorProtoView, v: FileDescriptorProtoView) -> FileDescriptorProtoView {
    FileDescriptorProtoView { name: newer_or(v.name, d.name), package: newer_or(v.package, d.package), dependency: d.dependency + v.dependency, public_dependency: d.public_dependency + v.public_dependency, weak_dependency: d.weak_dependency + v.weak_dependency, message_type: d.message_type + v.message_type, enum_type: d.enum_type + v.enum_type, service: d.service + v.service, extension: d.extension + v.extension, options: newer_or(v.options, d.options), source_code_info: newer_or(v.source_code_info, d.source_code_info), syntax: newer_or(v.syntax, d.syntax), unknown_fields: view_merge(d.unknown_fields, v.unknown_fields) }
}

/// Reading the bytes of the parts of a `FileDescriptorProto` `v`, field by field, into `d` merges `v` into `d`.
#[verifier::spinoff_prover]
#[verifier::rlimit(100)]
proof fn lemma_file_descriptor_proto_merge_all(d: FileDescriptorProtoView, v: FileDescriptorProtoView, depth: nat, limit: nat)
    requires
        parts_encodable(opt_field_parts::<raw::String>(1u32, v.name)),
        parts_encodable(opt_field_parts::<raw::String>(2u32, v.package)),
        parts_encodable(unpacked_parts::<raw::String>(3u32, v.dependency)),
        parts_encodable(descriptor_proto_seq_parts(4u32, v.message_type)),
        parts_encodable(enum_descriptor_proto_seq_parts(5u32, v.enum_type)),
        parts_encodable(service_descriptor_proto_seq_parts(6u32, v.service)),
        parts_encodable(field_descriptor_proto_seq_parts(7u32, v.extension)),
        parts_encodable(file_options_opt_parts(8u32, v.options)),
        parts_encodable(source_code_info_opt_parts(9u32, v.source_code_info)),
        parts_encodable(unpacked_parts::<raw::Int32>(10u32, v.public_dependency)),
        parts_encodable(unpacked_parts::<raw::Int32>(11u32, v.weak_dependency)),
        parts_encodable(opt_field_parts::<raw::String>(12u32, v.syntax)),
        file_descriptor_proto_roundtrips(v, depth, limit),
        v.options is Some ==> d.options is None,
        v.source_code_info is Some ==> d.source_code_info is None,
        parts_bytes(file_descriptor_proto_parts(v)) == parts_bytes(opt_field_parts::<raw::String>(1u32, v.name)) + (parts_bytes(opt_field_parts::<raw::String>(2u32, v.package)) + (parts_bytes(unpacked_parts::<raw::String>(3u32, v.dependency)) + (parts_bytes(descriptor_proto_seq_parts(4u32, v.message_type)) + (parts_bytes(enum_descriptor_proto_seq_parts(5u32, v.enum_type)) + (parts_bytes(service_descriptor_proto_seq_parts(6u32, v.service)) + (parts_bytes(field_descriptor_proto_seq_parts(7u32, v.extension)) + (parts_bytes(file_options_opt_parts(8u32, v.options)) + (parts_bytes(source_code_info_opt_parts(9u32, v.source_code_info)) + (parts_bytes(unpacked_parts::<raw::Int32>(10u32, v.public_dependency)) + (parts_bytes(unpacked_parts::<raw::Int32>(11u32, v.weak_dependency)) + (parts_bytes(opt_field_parts::<raw::String>(12u32, v.syntax)) + parts_bytes(set_parts(v.unknown_fields))))))))))))),
    ensures
        file_descriptor_proto_merged(d, parts_bytes(file_descriptor_proto_parts(v)), depth, limit, false, None) == Ok::<FileDescriptorProtoView, ReadError>(file_descriptor_proto_merge_view(d, v)),
{
    let p0 = opt_field_parts::<raw::String>(1u32, v.name);
    let p1 = opt_field_parts::<raw::String>(2u32, v.package);
    let p2 = unpacked_parts::<raw::String>(3u32, v.dependency);
    let p3 = descriptor_proto_seq_parts(4u32, v.message_type);
    let p4 = enum_descriptor_proto_seq_parts(5u32, v.enum_type);
    let p5 = service_descriptor_proto_seq_parts(6u32, v.service);
    let p6 = field_descriptor_proto_seq_parts(7u32, v.extension);
    let p7 = file_options_opt_parts(8u32, v.options);
    let p8 = source_code_info_opt_parts(9u32, v.source_code_info);
    let p9 = unpacked_parts::<raw::Int32>(10u32, v.public_dependency);
    let p10 = unpacked_parts::<raw::Int32>(11u32, v.weak_dependency);
    let p11 = opt_field_parts::<raw::String>(12u32, v.syntax);
    let p12 = set_parts(v.unknown_fields);
    let b0 = parts_bytes(p0);
    let b1 = parts_bytes(p1);
    let b2 = parts_bytes(p2);
    let b3 = parts_bytes(p3);
    let b4 = parts_bytes(p4);
    let b5 = parts_bytes(p5);
    let b6 = parts_bytes(p6);
    let b7 = parts_bytes(p7);
    let b8 = parts_bytes(p8);
    let b9 = parts_bytes(p9);
    let b10 = parts_bytes(p10);
    let b11 = parts_bytes(p11);
    let b12 = parts_bytes(p12);
    let r12 = b12;
    let r11 = b11 + r12;
    let r10 = b10 + r11;
    let r9 = b9 + r10;
    let r8 = b8 + r9;
    let r7 = b7 + r8;
    let r6 = b6 + r7;
    let r5 = b5 + r6;
    let r4 = b4 + r5;
    let r3 = b3 + r4;
    let r2 = b2 + r3;
    let r1 = b1 + r2;
    let r0 = b0 + r1;
    let d0 = d;
    let d1 = FileDescriptorProtoView { name: newer_or(v.name, d.name), ..d0 };
    assert(file_descriptor_proto_merged(d0, r0, depth, limit, false, None) == file_descriptor_proto_merged(d1, r1, depth, limit, false, None)) by {
        lemma_file_descriptor_proto_read_name(d0, v.name, r1, depth, limit);
        assert((if v.name is Some { FileDescriptorProtoView { name: v.name, ..d0 } } else { d0 }) == d1);
    }
    let d2 = FileDescriptorProtoView { package: newer_or(v.package, d.package), ..d1 };
    assert(file_descriptor_proto_merged(d1, r1, depth, limit, false, None) == file_descriptor_proto_merged(d2, r2, depth, limit, false, None)) by {
        lemma_file_descriptor_proto_read_package(d1, v.package, r2, depth, limit);
        assert((if v.package is Some { FileDescriptorProtoView { package: v.package, ..d1 } } else { d1 }) == d2);
    }
    let d3 = FileDescriptorProtoView { dependency: d.dependency + v.dependency, ..d2 };
    assert(file_descriptor_proto_merged(d2, r2, depth, limit, false, None) == file_descriptor_proto_merged(d3, r3, depth, limit, false, None)) by {
        lemma_unpacked_parts_encodable::<raw::String>(3u32, v.dependency);
        lemma_file_descriptor_proto_read_dependency(d2, v.dependency, r3, depth, limit);
        assert(FileDescriptorProtoView { dependency: d2.dependency + v.dependency, ..d2 } == d3);
    }
    let d4 = FileDescriptorProtoView { message_type: d.message_type + v.message_type, ..d3 };
    assert(file_descriptor_proto_merged(d3, r3, depth, limit, false, None) == file_descriptor_proto_merged(d4, r4, depth, limit, false, None)) by {
        lemma_file_descriptor_proto_read_message_type(d3, v.message_type, r4, depth, limit);
        assert(FileDescriptorProtoView { message_type: d3.message_type + v.message_type, ..d3 } == d4);
    }
    let d5 = FileDescriptorProtoView { enum_type: d.enum_type + v.enum_type, ..d4 };
    assert(file_descriptor_proto_merged(d4, r4, depth, limit, false, None) == file_descriptor_proto_merged(d5, r5, depth, limit, false, None)) by {
        lemma_file_descriptor_proto_read_enum_type(d4, v.enum_type, r5, depth, limit);
        assert(FileDescriptorProtoView { enum_type: d4.enum_type + v.enum_type, ..d4 } == d5);
    }
    let d6 = FileDescriptorProtoView { service: d.service + v.service, ..d5 };
    assert(file_descriptor_proto_merged(d5, r5, depth, limit, false, None) == file_descriptor_proto_merged(d6, r6, depth, limit, false, None)) by {
        lemma_file_descriptor_proto_read_service(d5, v.service, r6, depth, limit);
        assert(FileDescriptorProtoView { service: d5.service + v.service, ..d5 } == d6);
    }
    let d7 = FileDescriptorProtoView { extension: d.extension + v.extension, ..d6 };
    assert(file_descriptor_proto_merged(d6, r6, depth, limit, false, None) == file_descriptor_proto_merged(d7, r7, depth, limit, false, None)) by {
        lemma_file_descriptor_proto_read_extension(d6, v.extension, r7, depth, limit);
        assert(FileDescriptorProtoView { extension: d6.extension + v.extension, ..d6 } == d7);
    }
    let d8 = FileDescriptorProtoView { options: newer_or(v.options, d.options), ..d7 };
    assert(file_descriptor_proto_merged(d7, r7, depth, limit, false, None) == file_descriptor_proto_merged(d8, r8, depth, limit, false, None)) by {
        lemma_file_descriptor_proto_read_options(d7, v.options, r8, depth, limit);
        assert((if v.options is Some { FileDescriptorProtoView { options: v.options, ..d7 } } else { d7 }) == d8);
    }
    let d9 = FileDescriptorProtoView { source_code_info: newer_or(v.source_code_info, d.source_code_info), ..d8 };
    assert(file_descriptor_proto_merged(d8, r8, depth, limit, false, None) == file_descriptor_proto_merged(d9, r9, depth, limit, false, None)) by {
        lemma_file_descriptor_proto_read_source_code_info(d8, v.source_code_info, r9, depth, limit);
        assert((if v.source_code_info is Some { FileDescriptorProtoView { source_code_info: v.source_code_info, ..d8 } } else { d8 }) == d9);
    }
    let d10 = FileDescriptorProtoView { public_dependency: d.public_dependency + v.public_dependency, ..d9 };
    assert(file_descriptor_proto_merged(d9, r9, depth, limit, false, None) == file_descriptor_proto_merged(d10, r10, depth, limit, false, None)) by {
        lemma_unpacked_parts_encodable::<raw::Int32>(10u32, v.public_dependency);
        lemma_file_descriptor_proto_read_public_dependency(d9, v.public_dependency, r10, depth, limit);
        assert(FileDescriptorProtoView { public_dependency: d9.public_dependency + v.public_dependency, ..d9 } == d10);
    }
    let d11 = FileDescriptorProtoView { weak_dependency: d.weak_dependency + v.weak_dependency, ..d10 };
    assert(file_descriptor_proto_merged(d10, r10, depth, limit, false, None) == file_descriptor_proto_merged(d11, r11, depth, limit, false, None)) by {
        lemma_unpacked_parts_encodable::<raw::Int32>(11u32, v.weak_dependency);
        lemma_file_descriptor_proto_read_weak_dependency(d10, v.weak_dependency, r11, depth, limit);
        assert(FileDescriptorProtoView { weak_dependency: d10.weak_dependency + v.weak_dependency, ..d10 } == d11);
    }
    let d12 = FileDescriptorProtoView { syntax: newer_or(v.syntax, d.syntax), ..d11 };
    assert(file_descriptor_proto_merged(d11, r11, depth, limit, false, None) == file_descriptor_proto_merged(d12, r12, depth, limit, false, None)) by {
        lemma_file_descriptor_proto_read_syntax(d11, v.syntax, r12, depth, limit);
        assert((if v.syntax is Some { FileDescriptorProtoView { syntax: v.syntax, ..d11 } } else { d11 }) == d12);
    }
    let ps = set_pairs(v.unknown_fields);
    assert(file_descriptor_proto_merged(d12, r12, depth, limit, false, None) == Ok::<FileDescriptorProtoView, ReadError>(file_descriptor_proto_merge_view(d, v))) by {
        lemma_set_pairs(v.unknown_fields, d.unknown_fields);
        lemma_entries_readable(v.unknown_fields);
        assert forall|k: int| 0 <= k < ps.len() implies value_readable(#[trigger] ps[k].0, ps[k].1) && !file_descriptor_proto_known_tag(
            tag_value(ps[k].0, field_value_wire_type(ps[k].1)),
        ) by {
            assert(!file_descriptor_proto_known_tag(tag_value(set_pairs(v.unknown_fields)[k].0, field_value_wire_type(set_pairs(v.unknown_fields)[k].1))));
        }
        lemma_file_descriptor_proto_read_unknown(d12, ps, Seq::empty(), depth, limit);
        assert(b12 + Seq::<u8>::empty() =~= b12);
        let dl = FileDescriptorProtoView { unknown_fields: push_pairs(d12.unknown_fields, ps), ..d12 };
        assert(dl == file_descriptor_proto_merge_view(d, v));
    }
}

/// Reading the bytes of the parts of a `FileDescriptorProto`, field by field, gives the message back.
proof fn lemma_file_descriptor_proto_read_all(v: FileDescriptorProtoView, depth: nat, limit: nat)
    requires
        parts_encodable(opt_field_parts::<raw::String>(1u32, v.name)),
        parts_encodable(opt_field_parts::<raw::String>(2u32, v.package)),
        parts_encodable(unpacked_parts::<raw::String>(3u32, v.dependency)),
        parts_encodable(descriptor_proto_seq_parts(4u32, v.message_type)),
        parts_encodable(enum_descriptor_proto_seq_parts(5u32, v.enum_type)),
        parts_encodable(service_descriptor_proto_seq_parts(6u32, v.service)),
        parts_encodable(field_descriptor_proto_seq_parts(7u32, v.extension)),
        parts_encodable(file_options_opt_parts(8u32, v.options)),
        parts_encodable(source_code_info_opt_parts(9u32, v.source_code_info)),
        parts_encodable(unpacked_parts::<raw::Int32>(10u32, v.public_dependency)),
        parts_encodable(unpacked_parts::<raw::Int32>(11u32, v.weak_dependency)),
        parts_encodable(opt_field_parts::<raw::String>(12u32, v.syntax)),
        file_descriptor_proto_roundtrips(v, depth, limit),
        parts_bytes(file_descriptor_proto_parts(v)) == parts_bytes(opt_field_parts::<raw::String>(1u32, v.name)) + (parts_bytes(opt_field_parts::<raw::String>(2u32, v.package)) + (parts_bytes(unpacked_parts::<raw::String>(3u32, v.dependency)) + (parts_bytes(descriptor_proto_seq_parts(4u32, v.message_type)) + (parts_bytes(enum_descriptor_proto_seq_parts(5u32, v.enum_type)) + (parts_bytes(service_descriptor_proto_seq_parts(6u32, v.service)) + (parts_bytes(field_descriptor_proto_seq_parts(7u32, v.extension)) + (parts_bytes(file_options_opt_parts(8u32, v.options)) + (parts_bytes(source_code_info_opt_parts(9u32, v.source_code_info)) + (parts_bytes(unpacked_parts::<raw::Int32>(10u32, v.public_dependency)) + (parts_bytes(unpacked_parts::<raw::Int32>(11u32, v.weak_dependency)) + (parts_bytes(opt_field_parts::<raw::String>(12u32, v.syntax)) + parts_bytes(set_parts(v.unknown_fields))))))))))))),
    ensures
        file_descriptor_proto_merged(file_descriptor_proto_default(), parts_bytes(file_descriptor_proto_parts(v)), depth, limit, false, None) == Ok::<FileDescriptorProtoView, ReadError>(v),
{
    lemma_file_descriptor_proto_merge_all(file_descriptor_proto_default(), v, depth, limit);
    lemma_entries_readable(v.unknown_fields);
    lemma_merge_into_empty(v.unknown_fields);
    assert(Seq::empty() + v.dependency =~= v.dependency);
    assert(Seq::empty() + v.public_dependency =~= v.public_dependency);
    assert(Seq::empty() + v.weak_dependency =~= v.weak_dependency);
    assert(Seq::empty() + v.message_type =~= v.message_type);
    assert(Seq::empty() + v.enum_type =~= v.enum_type);
    assert(Seq::empty() + v.service =~= v.service);
    assert(Seq::empty() + v.extension =~= v.extension);
    assert(file_descriptor_proto_merge_view(file_descriptor_proto_default(), v) == v);
}

/// Merging what a `FileDescriptorProto` `v` writes into a message `d` merges `v` into `d`: each field `v`
/// holds replaces the one `d` holds, repeated values follow those `d` holds, and unknown fields
/// are added to those of `d`, where `d` holds none of the message fields `v` holds (those are
/// merged into each other), at nesting depth `depth` of a reader with recursion limit `limit`
/// that keeps unknown fields, outside any group, where `v` is read back as written.
pub proof fn lemma_file_descriptor_proto_merge_written(d: FileDescriptorProtoView, v: FileDescriptorProtoView, depth: nat, limit: nat)
    requires
        parts_encodable(file_descriptor_proto_parts(v)),
        file_descriptor_proto_roundtrips(v, depth, limit),
        v.options is Some ==> d.options is None,
        v.source_code_info is Some ==> d.source_code_info is None,
    ensures
        file_descriptor_proto_merged(d, parts_bytes(file_descriptor_proto_parts(v)), depth, limit, false, None) == Ok::<FileDescriptorProtoView, ReadError>(file_descriptor_proto_merge_view(d, v)),
{
    lemma_file_descriptor_proto_parts_encodable(v);
    lemma_file_descriptor_proto_parts_bytes(v);
    lemma_file_descriptor_proto_merge_all(d, v, depth, limit);
}

/// A `FileDescriptorProto` is read back as it is written: merging the bytes of its parts into a default
/// message, at nesting depth `depth` of a reader with recursion limit `limit` that keeps
/// unknown fields, outside any group, gives the message back, where it is read back as written.
pub proof fn lemma_file_descriptor_proto_roundtrip(v: FileDescriptorProtoView, depth: nat, limit: nat)
    requires
        parts_encodable(file_descriptor_proto_parts(v)),
        file_descriptor_proto_roundtrips(v, depth, limit),
    ensures
        file_descriptor_proto_merged(file_descriptor_proto_default(), parts_bytes(file_descriptor_proto_parts(v)), depth, limit, false, None) == Ok::<FileDescriptorProtoView, ReadError>(v),
{
    lemma_file_descriptor_proto_parts_encodable(v);
    lemma_file_descriptor_proto_parts_bytes(v);
    lemma_file_descriptor_proto_read_all(v, depth, limit);
}

/// The `DescriptorProto` message of `descriptor.proto`.
#[derive(Debug)]
pub struct DescriptorProto {
    name: Option<String>,
    field: RepeatedField<FieldDescriptorProto>,
    extension: RepeatedField<FieldDescriptorProto>,
    nested_type: RepeatedField<DescriptorProto>,
    enum_type: RepeatedField<EnumDescriptorProto>,
    extension_range: RepeatedField<ExtensionRange>,
    oneof_decl: RepeatedField<OneofDescriptorProto>,
    options: Option<MessageOptions>,
    reserved_range: RepeatedField<ReservedRange>,
    reserved_name: RepeatedField<String>,
    unknown_fields: UnknownFieldSet,
}

/// The view of a `DescriptorProto`: its fields, and its unknown fields.
pub struct DescriptorProtoView {
    /// The `name` field.
    pub name: Option<Seq<char>>,
    /// The `field` field.
    pub field: Seq<FieldDescriptorProtoView>,
    /// The `extension` field.
    pub extension: Seq<FieldDescriptorProtoView>,
    /// The `nested_type` field.
    pub nested_type: Seq<DescriptorProtoView>,
    /// The `enum_type` field.
    pub enum_type: Seq<EnumDescriptorProtoView>,
    /// The `extension_range` field.
    pub extension_range: Seq<ExtensionRangeView>,
    /// The `oneof_decl` field.
    pub oneof_decl: Seq<OneofDescriptorProtoView>,
    /// The `options` field.
    pub options: Option<MessageOptionsView>,
    /// The `reserved_range` field.
    pub reserved_range: Seq<ReservedRangeView>,
    /// The `reserved_name` field.
    pub reserved_name: Seq<Seq<char>>,
    /// The unknown fields.
    pub unknown_fields: Seq<(u32, Seq<FieldValue>)>,
}

/// The view of a `DescriptorProto` value.
pub closed spec fn descriptor_proto_view(m: DescriptorProto) -> DescriptorProtoView
    decreases m,
{
    DescriptorProtoView {
        name: opt_view(m.name),
        field: field_descriptor_proto_seq_view(m.field@),
        extension: field_descriptor_proto_seq_view(m.extension@),
        nested_type: descriptor_proto_seq_view(m.nested_type@),
        enum_type: enum_descriptor_proto_seq_view(m.enum_type@),
        extension_range: extension_range_seq_view(m.extension_range@),
        oneof_decl: oneof_descriptor_proto_seq_view(m.oneof_decl@),
        options: match m.options { Some(x) => Some(message_options_view(x)), None => None },
        reserved_range: reserved_range_seq_view(m.reserved_range@),
        reserved_name: views(m.reserved_name@),
        unknown_fields: m.unknown_fields@,
    }
}

/// The views of a run of `DescriptorProto` values.
pub closed spec fn descriptor_proto_seq_view(s: Seq<DescriptorProto>) -> Seq<DescriptorProtoView>
    decreases s,
{
    if s.len() == 0 {
        Seq::empty()
    } else {
        descriptor_proto_seq_view(s.subrange(0, s.len() - 1)).push(descriptor_proto_view(s[s.len() - 1]))
    }
}

/// The view of a `DescriptorProto` with no field set.
pub open spec fn descriptor_proto_default() -> DescriptorProtoView {
    DescriptorProtoView {
        name: None,
        field: Seq::empty(),
        extension: Seq::empty(),
        nested_type: Seq::empty(),
        enum_type: Seq::empty(),
        extension_range: Seq::empty(),
        oneof_decl: Seq::empty(),
        options: None,
        reserved_range: Seq::empty(),
        reserved_name: Seq::empty(),
        unknown_fields: Seq::empty(),
    }
}

impl View for DescriptorProto {
    type V = DescriptorProtoView;

    open spec fn view(&self) -> DescriptorProtoView {
        descriptor_proto_view(*self)
    }
}

impl Default for DescriptorProto {
    /// A message with no field set.
    fn default() -> (r: DescriptorProto)
        ensures
            r@ == descriptor_proto_default(),
    {
        let r = DescriptorProto {
            name: None,
            field: Vec::new(),
            extension: Vec::new(),
            nested_type: Vec::new(),
            enum_type: Vec::new(),
            extension_range: Vec::new(),
            oneof_decl: Vec::new(),
            options: None,
            reserved_range: Vec::new(),
            reserved_name: Vec::new(),
            unknown_fields: UnknownFieldSet::new(),
        };
        proof {
            assert(field_descriptor_proto_seq_view(r.field@) =~= Seq::empty());
            assert(field_descriptor_proto_seq_view(r.extension@) =~= Seq::empty());
            assert(descriptor_proto_seq_view(r.nested_type@) =~= Seq::empty());
            assert(enum_descriptor_proto_seq_view(r.enum_type@) =~= Seq::empty());
            assert(extension_range_seq_view(r.extension_range@) =~= Seq::empty());
            assert(oneof_descriptor_proto_seq_view(r.oneof_decl@) =~= Seq::empty());
            assert(reserved_range_seq_view(r.reserved_range@) =~= Seq::empty());
            assert(views(r.reserved_name@) =~= Seq::empty());
            assert(r@ =~= descriptor_proto_default());
        }
        r
    }
}

impl DescriptorProto {
    /// Gets the `name` field, or its default, the empty string.
    pub fn name(&self) -> (r: &str)
        ensures
            r@ == text_or_empty(self@.name),
    {
        proof {
            reveal_strlit("");
        }
        match &self.name {
            Some(s) => s.as_str(),
            None => "",
        }
    }

    /// Gets the `name` field if it is set.
    pub fn name_option(&self) -> (r: Option<&String>)
        ensures
            opt_ref_view(r) == self@.name,
    {
        self.name.as_ref()
    }

    /// Gets the `name` field for changing it, setting it to its type's default first if it
    /// is not set.
    pub fn name_mut(&mut self) -> (r: &mut String)
        ensures
            (*r)@ == old(self)@.name.unwrap_or(Seq::<char>::empty()),
            final(self)@ == (DescriptorProtoView { name: Some((*final(r))@), ..old(self)@ }),
    {
        self.name.get_or_insert(String::new())
    }

    /// Returns whether the `name` field is set.
    pub fn has_name(&self) -> (r: bool)
        ensures
            r == self@.name is Some,
    {
        self.name.is_some()
    }

    /// Sets the `name` field.
    pub fn set_name(&mut self, value: String)
        ensures
            final(self)@ == (DescriptorProtoView { name: Some(value@), ..old(self)@ }),
    {
        self.name = Some(value);
    }

    /// Takes the `name` field out, leaving it unset.
    pub fn take_name(&mut self) -> (r: Option<String>)
        ensures
            opt_view(r) == old(self)@.name,
            final(self)@ == (DescriptorProtoView { name: None, ..old(self)@ }),
    {
        self.name.take()
    }

    /// Clears the `name` field, leaving it unset.
    pub fn clear_name(&mut self)
        ensures
            final(self)@ == (DescriptorProtoView { name: None, ..old(self)@ }),
    {
        self.name = None;
    }

    /// Gets the values of the `field` field.
    pub fn field(&self) -> (r: &RepeatedField<FieldDescriptorProto>)
        ensures
            field_descriptor_proto_seq_view(r@) == self@.field,
    {
        &self.field
    }

    /// Gets the values of the `field` field for changing them.
    pub fn field_mut(&mut self) -> (r: &mut RepeatedField<FieldDescriptorProto>)
        ensures
            field_descriptor_proto_seq_view((*r)@) == old(self)@.field,
            final(self)@ == (DescriptorProtoView { field: field_descriptor_proto_seq_view((*final(r))@), ..old(self)@ }),
    {
        &mut self.field
    }

    /// Gets the values of the `extension` field.
    pub fn extension(&self) -> (r: &RepeatedField<FieldDescriptorProto>)
        ensures
            field_descriptor_proto_seq_view(r@) == self@.extension,
    {
        &self.extension
    }

    /// Gets the values of the `extension` field for changing them.
    pub fn extension_mut(&mut self) -> (r: &mut RepeatedField<FieldDescriptorProto>)
        ensures
            field_descriptor_proto_seq_view((*r)@) == old(self)@.extension,
            final(self)@ == (DescriptorProtoView { extension: field_descriptor_proto_seq_view((*final(r))@), ..old(self)@ }),
    {
        &mut self.extension
    }

    /// Gets the values of the `nested_type` field.
    pub fn nested_type(&self) -> (r: &RepeatedField<DescriptorProto>)
        ensures
            descriptor_proto_seq_view(r@) == self@.nested_type,
    {
        &self.nested_type
    }

    /// Gets the values of the `nested_type` field for changing them.
    pub fn nested_type_mut(&mut self) -> (r: &mut RepeatedField<DescriptorProto>)
        ensures
            descriptor_proto_seq_view((*r)@) == old(self)@.nested_type,
            final(self)@ == (DescriptorProtoView { nested_type: descriptor_proto_seq_view((*final(r))@), ..old(self)@ }),
    {
        &mut self.nested_type
    }

    /// Gets the values of the `enum_type` field.
    pub fn enum_type(&self) -> (r: &RepeatedField<EnumDescriptorProto>)
        ensures
            enum_descriptor_proto_seq_view(r@) == self@.enum_type,
    {
        &self.enum_type
    }

    /// Gets the values of the `enum_type` field for changing them.
    pub fn enum_type_mut(&mut self) -> (r: &mut RepeatedField<EnumDescriptorProto>)
        ensures
            enum_descriptor_proto_seq_view((*r)@) == old(self)@.enum_type,
            final(self)@ == (DescriptorProtoView { enum_type: enum_descriptor_proto_seq_view((*final(r))@), ..old(self)@ }),
    {
        &mut self.enum_type
    }

    /// Gets the values of the `extension_range` field.
    pub fn extension_range(&self) -> (r: &RepeatedField<ExtensionRange>)
        ensures
            extension_range_seq_view(r@) == self@.extension_range,
    {
        &self.extension_range
    }

    /// Gets the values of the `extension_range` field for changing them.
    pub fn extension_range_mut(&mut self) -> (r: &mut RepeatedField<ExtensionRange>)
        ensures
            extension_range_seq_view((*r)@) == old(self)@.extension_range,
            final(self)@ == (DescriptorProtoView { extension_range: extension_range_seq_view((*final(r))@), ..old(self)@ }),
    {
        &mut self.extension_range
    }

    /// Gets the values of the `oneof_decl` field.
    pub fn oneof_decl(&self) -> (r: &RepeatedField<OneofDescriptorProto>)
        ensures
            oneof_descriptor_proto_seq_view(r@) == self@.oneof_decl,
    {
        &self.oneof_decl
    }

    /// Gets the values of the `oneof_decl` field for changing them.
    pub fn oneof_decl_mut(&mut self) -> (r: &mut RepeatedField<OneofDescriptorProto>)
        ensures
            oneof_descriptor_proto_seq_view((*r)@) == old(self)@.oneof_decl,
            final(self)@ == (DescriptorProtoView { oneof_decl: oneof_descriptor_proto_seq_view((*final(r))@), ..old(self)@ }),
    {
        &mut self.oneof_decl
    }

    /// Gets the `options` field if it is set.
    pub fn options_option(&self) -> (r: Option<&MessageOptions>)
        ensures
            opt_ref_view(r) == self@.options,
    {
        self.options.as_ref()
    }

    /// Gets the `options` field for changing it, setting it to its type's default first if it
    /// is not set.
    pub fn options_mut(&mut self) -> (r: &mut MessageOptions)
        ensures
            (*r)@ == old(self)@.options.unwrap_or(message_options_default()),
            final(self)@ == (DescriptorProtoView { options: Some((*final(r))@), ..old(self)@ }),
    {
        self.options.get_or_insert(MessageOptions::default())
    }

    /// Returns whether the `options` field is set.
    pub fn has_options(&self) -> (r: bool)
        ensures
            r == self@.options is Some,
    {
        self.options.is_some()
    }

    /// Sets the `options` field.
    pub fn set_options(&mut self, value: MessageOptions)
        ensures
            final(self)@ == (DescriptorProtoView { options: Some(value@), ..old(self)@ }),
    {
        self.options = Some(value);
    }

    /// Takes the `options` field out, leaving it unset.
    pub fn take_options(&mut self) -> (r: Option<MessageOptions>)
        ensures
            opt_view(r) == old(self)@.options,
            final(self)@ == (DescriptorProtoView { options: None, ..old(self)@ }),
    {
        self.options.take()
    }

    /// Clears the `options` field, leaving it unset.
    pub fn clear_options(&mut self)
        ensures
            final(self)@ == (DescriptorProtoView { options: None, ..old(self)@ }),
    {
        self.options = None;
    }

    /// Gets the values of the `reserved_range` field.
    pub fn reserved_range(&self) -> (r: &RepeatedField<ReservedRange>)
        ensures
            reserved_range_seq_view(r@) == self@.reserved_range,
    {
        &self.reserved_range
    }

    /// Gets the values of the `reserved_range` field for changing them.
    pub fn reserved_range_mut(&mut self) -> (r: &mut RepeatedField<ReservedRange>)
        ensures
            reserved_range_seq_view((*r)@) == old(self)@.reserved_range,
            final(self)@ == (DescriptorProtoView { reserved_range: reserved_range_seq_view((*final(r))@), ..old(self)@ }),
    {
        &mut self.reserved_range
    }

    /// Gets the values of the `reserved_name` field.
    pub fn reserved_name(&self) -> (r: &RepeatedField<String>)
        ensures
            views(r@) == self@.reserved_name,
    {
        &self.reserved_name
    }

    /// Gets the values of the `reserved_name` field for changing them.
    pub fn reserved_name_mut(&mut self) -> (r: &mut RepeatedField<String>)
        ensures
            views((*r)@) == old(self)@.reserved_name,
            final(self)@ == (DescriptorProtoView { reserved_name: views((*final(r))@), ..old(self)@ }),
    {
        &mut self.reserved_name
    }
}

/// The parts a `DescriptorProto` is written as: its fields that are set, in field number order, then its
/// unknown fields.
#[verifier::opaque]
pub open spec fn descriptor_proto_parts(v: DescriptorProtoView) -> Seq<(bool, Seq<u8>)>
    decreases v,
{
    opt_field_parts::<raw::String>(1u32, v.name) + (field_descriptor_proto_seq_parts(2u32, v.field) + (descriptor_proto_seq_parts(3u32, v.nested_type) + (enum_descriptor_proto_seq_parts(4u32, v.enum_type) + (extension_range_seq_parts(5u32, v.extension_range) + (field_descriptor_proto_seq_parts(6u32, v.extension) + (message_options_opt_parts(7u32, v.options) + (oneof_descriptor_proto_seq_parts(8u32, v.oneof_decl) + (reserved_range_seq_parts(9u32, v.reserved_range) + (unpacked_parts::<raw::String>(10u32, v.reserved_name) + (set_parts(v.unknown_fields)))))))))))
}

/// The parts the `DescriptorProto` values of a repeated field with field number `num` are written as:
/// for each, its tag, its length and its parts.
pub open spec fn descriptor_proto_seq_parts(num: u32, ys: Seq<DescriptorProtoView>) -> Seq<(bool, Seq<u8>)>
    decreases ys,
{
    if ys.len() == 0 {
        Seq::empty()
    } else {
        descriptor_proto_seq_parts(num, ys.subrange(0, ys.len() - 1)) + entry_parts(num, descriptor_proto_parts(ys[ys.len() - 1]))
    }
}

/// What reading the field with tag value `t` from the front of `rest` into `v` gives: the
/// number of bytes read and the message after, or the error.
pub open spec fn descriptor_proto_field_read(v: DescriptorProtoView, t: u32, rest: Seq<u8>, depth: nat, limit: nat, skip: bool, eg: Option<Tag>) -> ReadResult<(int, DescriptorProtoView)>
    decreases rest.len(),
{
    proof {
        lemma_length_delimited_read_len(rest);
    }
    if t == 10u32 {
        match <raw::String as Value>::decoding(rest) { Ok((m, x)) => Ok((m, DescriptorProtoView { name: Some(x), ..v })), Err(e) => Err(e) }
    } else if t == 18u32 {
        match length_delimited_read(rest) { Err(e) => Err(e), Ok((m, b)) => if depth >= limit { Err(ReadError::RecursionLimitExceeded) } else { match field_descriptor_proto_merged(field_descriptor_proto_default(), b, depth + 1, limit, skip, eg) { Ok(y) => Ok((m, DescriptorProtoView { field: v.field.push(y), ..v })), Err(e) => Err(e) } } }
    } else if t == 26u32 {
        match length_delimited_read(rest) { Err(e) => Err(e), Ok((m, b)) => if depth >= limit { Err(ReadError::RecursionLimitExceeded) } else { match descriptor_proto_merged(descriptor_proto_default(), b, depth + 1, limit, skip, eg) { Ok(y) => Ok((m, DescriptorProtoView { nested_type: v.nested_type.push(y), ..v })), Err(e) => Err(e) } } }
    } else if t == 34u32 {
        match length_delimited_read(rest) { Err(e) => Err(e), Ok((m, b)) => if depth >= limit { Err(ReadError::RecursionLimitExceeded) } else { match enum_descriptor_proto_merged(enum_descriptor_proto_default(), b, depth + 1, limit, skip, eg) { Ok(y) => Ok((m, DescriptorProtoView { enum_type: v.enum_type.push(y), ..v })), Err(e) => Err(e) } } }
    } else if t == 42u32 {
        match length_delimited_read(rest) { Err(e) => Err(e), Ok((m, b)) => if depth >= limit { Err(ReadError::RecursionLimitExceeded) } else { match extension_range_merged(extension_range_default(), b, depth + 1, limit, skip, eg) { Ok(y) => Ok((m, DescriptorProtoView { extension_range: v.extension_range.push(y), ..v })), Err(e) => Err(e) } } }
    } else if t == 50u32 {
        match length_delimited_read(rest) { Err(e) => Err(e), Ok((m, b)) => if depth >= limit { Err(ReadError::RecursionLimitExceeded) } else { match field_descriptor_proto_merged(field_descriptor_proto_default(), b, depth + 1, limit, skip, eg) { Ok(y) => Ok((m, DescriptorProtoView { extension: v.extension.push(y), ..v })), Err(e) => Err(e) } } }
    } else if t == 58u32 {
        match length_delimited_read(rest) { Err(e) => Err(e), Ok((m, b)) => if depth >= limit { Err(ReadError::RecursionLimitExceeded) } else { match message_options_merged(match v.options { Some(y) => y, None => message_options_default() }, b, depth + 1, limit, skip, eg) { Ok(y) => Ok((m, DescriptorProtoView { options: Some(y), ..v })), Err(e) => Err(e) } } }
    } else if t == 66u32 {
        match length_delimited_read(rest) { Err(e) => Err(e), Ok((m, b)) => if depth >= limit { Err(ReadError::RecursionLimitExceeded) } else { match oneof_descriptor_proto_merged(oneof_descriptor_proto_default(), b, depth + 1, limit, skip, eg) { Ok(y) => Ok((m, DescriptorProtoView { oneof_decl: v.oneof_decl.push(y), ..v })), Err(e) => Err(e) } } }
    } else if t == 74u32 {
        match length_delimited_read(rest) { Err(e) => Err(e), Ok((m, b)) => if depth >= limit { Err(ReadError::RecursionLimitExceeded) } else { match reserved_range_merged(reserved_range_default(), b, depth + 1, limit, skip, eg) { Ok(y) => Ok((m, DescriptorProtoView { reserved_range: v.reserved_range.push(y), ..v })), Err(e) => Err(e) } } }
    } else if t == 82u32 {
        match <RepeatedField<std::string::String> as RepeatedValue<raw::String>>::entries_read(rest) { Ok((m, es)) => Ok((m, DescriptorProtoView { reserved_name: v.reserved_name + es, ..v })), Err(e) => Err(e) }
    } else {
        match unknown_field_read(v.unknown_fields, t, rest, depth, limit, skip, eg) {
            Ok((m, u)) => Ok((m, DescriptorProtoView { unknown_fields: u, ..v })),
            Err(e) => Err(e),
        }
    }
}

/// What reading all of `s` into `v` as `DescriptorProto` fields gives: the message after, or the error.
/// `depth` and `limit` are the reader's depth and recursion limit, `skip` whether it skips
/// unknown fields, and `eg` the end tag of the group it is in.
pub open spec fn descriptor_proto_merged(v: DescriptorProtoView, s: Seq<u8>, depth: nat, limit: nat, skip: bool, eg: Option<Tag>) -> ReadResult<DescriptorProtoView>
    decreases s.len(),
{
    if s.len() == 0 {
        Ok(v)
    } else {
        match varint_read(s) {
            Err(e) => Err(e),
            Ok((n, w)) => if n < 1 || n > s.len() {
                Err(eof())
            } else {
                match descriptor_proto_field_read(v, w as u32, s.skip(n), depth, limit, skip, eg) {
                    Err(e) => Err(e),
                    Ok((m, v2)) => if m < 0 || n + m > s.len() {
                        Err(eof())
                    } else {
                        descriptor_proto_merged(v2, s.skip(n + m), depth, limit, skip, eg)
                    },
                }
            },
        }
    }
}

/// The views of a run of `DescriptorProto` values, value by value.
pub proof fn lemma_descriptor_proto_seq_view(s: Seq<DescriptorProto>)
    ensures
        descriptor_proto_seq_view(s).len() == s.len(),
        forall|i: int| 0 <= i < s.len() ==> #[trigger] descriptor_proto_seq_view(s)[i] == descriptor_proto_view(s[i]),
    decreases s.len(),
{
    if s.len() > 0 {
        lemma_descriptor_proto_seq_view(s.subrange(0, s.len() - 1));
        assert forall|i: int| 0 <= i < s.len() implies #[trigger] descriptor_proto_seq_view(s)[i] == descriptor_proto_view(s[i]) by {
            if i < s.len() - 1 {
                assert(s.subrange(0, s.len() - 1)[i] == s[i]);
            }
        }
    }
}

/// The parts of two runs of `DescriptorProto` values are those of the first, then the second.
proof fn lemma_descriptor_proto_seq_parts_append(num: u32, a: Seq<DescriptorProtoView>, b: Seq<DescriptorProtoView>)
    ensures
        descriptor_proto_seq_parts(num, a + b) == descriptor_proto_seq_parts(num, a) + descriptor_proto_seq_parts(num, b),
    decreases b.len(),
{
    if b.len() == 0 {
        assert(a + b =~= a);
        assert(descriptor_proto_seq_parts(num, a) + descriptor_proto_seq_parts(num, b) =~= descriptor_proto_seq_parts(num, a));
    } else {
        let ab = a + b;
        assert(ab.subrange(0, ab.len() - 1) =~= a + b.subrange(0, b.len() - 1));
        assert(ab[ab.len() - 1] == b[b.len() - 1]);
        lemma_descriptor_proto_seq_parts_append(num, a, b.subrange(0, b.len() - 1));
        assert(descriptor_proto_seq_parts(num, a + b) =~= descriptor_proto_seq_parts(num, a) + descriptor_proto_seq_parts(num, b));
    }
}

/// The parts of the first `i + 1` values of a run are those of the first `i`, then the entry
/// of value `i`; and those of the whole run are those of the first `i + 1`, then the rest.
proof fn lemma_descriptor_proto_seq_parts_step(num: u32, ys: Seq<DescriptorProtoView>, i: int)
    requires
        0 <= i < ys.len(),
    ensures
        descriptor_proto_seq_parts(num, ys.take(i + 1)) == descriptor_proto_seq_parts(num, ys.take(i)) + entry_parts(num, descriptor_proto_parts(ys[i])),
        descriptor_proto_seq_parts(num, ys) == descriptor_proto_seq_parts(num, ys.take(i + 1)) + descriptor_proto_seq_parts(num, ys.skip(i + 1)),
{
    reveal_with_fuel(descriptor_proto_parts, 1);
    assert(ys.take(i + 1).subrange(0, i) =~= ys.take(i));
    assert(ys.take(i + 1)[i] == ys[i]);
    lemma_descriptor_proto_seq_parts_append(num, ys.take(i + 1), ys.skip(i + 1));
    assert(ys.take(i + 1) + ys.skip(i + 1) =~= ys);
}

/// The parts of `DescriptorProto` values are those of the first value's entry, then those of the others.
proof fn lemma_descriptor_proto_seq_parts_front(num: u32, ys: Seq<DescriptorProtoView>)
    requires
        ys.len() > 0,
    ensures
        descriptor_proto_seq_parts(num, ys) == entry_parts(num, descriptor_proto_parts(ys[0])) + descriptor_proto_seq_parts(num, ys.drop_first()),
{
    reveal_with_fuel(descriptor_proto_parts, 1);
    let one = seq![ys[0]];
    lemma_descriptor_proto_seq_parts_append(num, one, ys.drop_first());
    assert(one + ys.drop_first() =~= ys);
    assert(one.subrange(0, 0) =~= Seq::<DescriptorProtoView>::empty());
    assert(descriptor_proto_seq_parts(num, Seq::<DescriptorProtoView>::empty()) =~= Seq::<(bool, Seq<u8>)>::empty());
    assert(one[0] == ys[0]);
    assert(descriptor_proto_seq_parts(num, one) =~= entry_parts(num, descriptor_proto_parts(ys[0])));
}

/// Adds the size of the `DescriptorProto` values of a repeated field with field number `num`.
fn descriptor_proto_values_size(vs: &Vec<DescriptorProto>, builder: LengthBuilder, num: FieldNumber) -> (r: Option<LengthBuilder>)
    ensures
        size_added(builder@ as int, parts_encodable(descriptor_proto_seq_parts(num@, descriptor_proto_seq_view(vs@))), parts_bytes(descriptor_proto_seq_parts(num@, descriptor_proto_seq_view(vs@))).len() as int, r),
    decreases descriptor_proto_seq_view(vs@),
{
    let ghost ys = descriptor_proto_seq_view(vs@);
    proof {
        lemma_descriptor_proto_seq_view(vs@);
        assert(ys.take(0) =~= Seq::<DescriptorProtoView>::empty());
    }
    let mut b = builder;
    let mut i: usize = 0;
    while i < vs.len()
        invariant
            ys == descriptor_proto_seq_view(vs@),
            ys.len() == vs@.len(),
            forall|k: int| 0 <= k < vs@.len() ==> #[trigger] ys[k] == descriptor_proto_view(vs@[k]),
            i <= vs@.len(),
            size_added(builder@ as int, parts_encodable(descriptor_proto_seq_parts(num@, ys.take(i as int))), parts_bytes(descriptor_proto_seq_parts(num@, ys.take(i as int))).len() as int, Some(b)),
        decreases vs@.len() - i,
    {
        let ghost y = ys[i as int];
        let ghost done = descriptor_proto_seq_parts(num@, ys.take(i as int));
        let ghost cur = entry_parts(num@, descriptor_proto_parts(y));
        let ghost rest = descriptor_proto_seq_parts(num@, ys.skip(i + 1));
        proof {
            lemma_descriptor_proto_seq_parts_step(num@, ys, i as int);
        }
        let len = vs[i].calculate_size();
        let r = add_entry_size(b, num, len, Ghost(descriptor_proto_parts(y)));
        proof {
            lemma_size_chain(builder@ as int, done, cur, Some(b), r);
        }
        b = match r {
            Some(b1) => b1,
            None => {
                proof {
                    lemma_size_prefix(builder@ as int, done + cur, rest);
                }
                return None;
            },
        };
        i = i + 1;
    }
    proof {
        assert(ys.take(i as int) =~= ys);
    }
    Some(b)
}

/// Writes the `DescriptorProto` values of a repeated field with field number `num`: for each, its tag,
/// its length and its fields.
fn write_descriptor_proto_values(vs: &Vec<DescriptorProto>, output: &mut CodedWriter, num: FieldNumber) -> (r: WriteResult)
    ensures
        (final(output).written(), r) == parts_written(old(output).written(), old(output).capacity(), descriptor_proto_seq_parts(num@, descriptor_proto_seq_view(vs@))),
        final(output).capacity() == old(output).capacity(),
        (*final(final(output).target()))@ == (*final(old(output).target()))@,
    decreases descriptor_proto_seq_view(vs@),
{
    let ghost ys = descriptor_proto_seq_view(vs@);
    let ghost start = output.written();
    let ghost cap = output.capacity();
    proof {
        lemma_descriptor_proto_seq_view(vs@);
        assert(ys.take(0) =~= Seq::<DescriptorProtoView>::empty());
    }
    let mut i: usize = 0;
    while i < vs.len()
        invariant
            ys == descriptor_proto_seq_view(vs@),
            ys.len() == vs@.len(),
            forall|k: int| 0 <= k < vs@.len() ==> #[trigger] ys[k] == descriptor_proto_view(vs@[k]),
            i <= vs@.len(),
            start == old(output).written(),
            cap == old(output).capacity(),
            output.capacity() == cap,
            (*final(output.target()))@ == (*final(old(output).target()))@,
            parts_written(start, cap, descriptor_proto_seq_parts(num@, ys.take(i as int))).0 == output.written(),
            parts_written(start, cap, descriptor_proto_seq_parts(num@, ys.take(i as int))).1 is Ok,
        decreases vs@.len() - i,
    {
        let ghost y = ys[i as int];
        let ghost done = descriptor_proto_seq_parts(num@, ys.take(i as int));
        let ghost head = entry_head(num@, descriptor_proto_parts(y));
        let ghost cur = head + descriptor_proto_parts(y);
        let ghost rest = descriptor_proto_seq_parts(num@, ys.skip(i + 1));
        let ghost w0 = output.written();
        proof {
            lemma_descriptor_proto_seq_parts_step(num@, ys, i as int);
            lemma_parts_written_append(start, cap, done, cur);
            lemma_parts_written_append(start, cap, done + cur, rest);
            lemma_parts_written_append(w0, cap, head, descriptor_proto_parts(y));
            reveal_with_fuel(parts_written, 3);
            assert(head.drop_first().drop_first() =~= Seq::<(bool, Seq<u8>)>::empty());
        }
        match output.write_tag(Tag::new(num, WireType::LengthDelimited)) {
            Ok(()) => {},
            Err(e) => return Err(e),
        }
        let len = match vs[i].calculate_size() {
            Some(len) => len,
            None => return Err(WriteError::ValueTooLarge),
        };
        match output.write_length(len) {
            Ok(()) => {},
            Err(e) => return Err(e),
        }
        match vs[i].write_to(output) {
            Ok(()) => {},
            Err(e) => return Err(e),
        }
        i = i + 1;
    }
    proof {
        assert(ys.take(i as int) =~= ys);
        lemma_ok_unit(parts_written(start, cap, descriptor_proto_seq_parts(num@, ys)).1);
    }
    Ok(())
}

/// Reads a `DescriptorProto` from the reader as a length delimited value, merging it into `this`, one
/// level deeper.
fn merge_descriptor_proto_delimited(this: &mut DescriptorProto, input: &mut CodedReader) -> (r: ReadResult<()>)
    ensures
        match length_delimited_read(old(input).available()) {
            Err(e) => r == Err::<(), ReadError>(e) && same_config(*old(input), *final(input)),
            Ok((m, b)) => if old(input).depth() >= old(input).recursion_limit() {
                r == Err::<(), ReadError>(ReadError::RecursionLimitExceeded) && same_config(*old(input), *final(input))
            } else {
                match descriptor_proto_merged(old(this)@, b, old(input).depth() + 1, old(input).recursion_limit(), skips(*old(input)), old(input).end_group_view()) {
                    Ok(y) => r is Ok && final(this)@ == y && final(input).position() == old(input).position() + m
                        && same_state(*old(input), *final(input)),
                    Err(e) => r == Err::<(), ReadError>(e) && same_config(*old(input), *final(input)),
                }
            },
        },
    decreases old(input).available().len(), 0nat,
{
    let rem0 = input.remaining();
    let ghost s = input.available();
    let ghost start = *input;
    let length = match input.read_length() {
        Ok(l) => l,
        Err(e) => return Err(e),
    };
    let rem1 = input.remaining();
    let ghost n0 = input.position() - start.position();
    proof {
        lemma_varint_read_len(s);
        assert(input.available() =~= s.skip(n0));
    }
    let previous = match input.push_length(length) {
        Ok(p) => p,
        Err(e) => return Err(e),
    };
    let rem2 = input.remaining();
    let ghost b = s.subrange(n0, n0 + length@);
    proof {
        assert(input.available() =~= b);
        assert(length_delimited_read(s) == Ok::<(int, Seq<u8>), ReadError>((n0 + length@, b)));
    }
    let ghost pushed = *input;
    match input.increment_recursion_count() {
        Ok(()) => {},
        Err(e) => {
            input.pop_length(previous);
            return Err(e);
        },
    }
    let r = this.merge_from(input);
    let rem3 = input.remaining();
    input.decrement_recursion_count();
    input.pop_length(previous);
    r
}

impl DescriptorProto {
    /// Gets the unknown fields of the message.
    pub fn unknown_fields(&self) -> (r: &UnknownFieldSet)
        ensures
            r@ == self@.unknown_fields,
    {
        &self.unknown_fields
    }

    /// Gets the unknown fields of the message for changing them.
    pub fn unknown_fields_mut(&mut self) -> (r: &mut UnknownFieldSet)
        ensures
            (*r)@ == old(self)@.unknown_fields,
            final(self)@ == (DescriptorProtoView { unknown_fields: (*final(r))@, ..old(self)@ }),
    {
        &mut self.unknown_fields
    }

    /// Returns whether the message is initialized: whether all its required fields are set.
    pub fn is_initialized(&self) -> (r: bool)
        ensures
            r,
    {
        if !crate::is_initialized(&self.field) {
            return false;
        }
        if !crate::is_initialized(&self.extension) {
            return false;
        }
        if !crate::is_initialized(&self.nested_type) {
            return false;
        }
        if !crate::is_initialized(&self.enum_type) {
            return false;
        }
        if !crate::is_initialized(&self.extension_range) {
            return false;
        }
        if !crate::is_initialized(&self.oneof_decl) {
            return false;
        }
        if !crate::is_initialized(&self.reserved_range) {
            return false;
        }
        if !crate::is_initialized(&self.reserved_name) {
            return false;
        }
        true
    }

    /// Calculates the size of the message as it is written: `None` if a part cannot be
    /// written or the size does not fit in a length.
    #[verifier::spinoff_prover]
    #[verifier::rlimit(100)]
    pub fn calculate_size(&self) -> (r: Option<Length>)
        ensures
            opt_length(r) == parts_size(descriptor_proto_parts(self@)),
        decreases self@,
    {
        let ghost v = self@;
        let ghost all = descriptor_proto_parts(v);
        let b0 = LengthBuilder::new();
        let ghost d0 = Seq::<(bool, Seq<u8>)>::empty();
        proof {
            reveal(descriptor_proto_parts);
            assert(all =~= d0 + all);
        }
        let ghost p1 = opt_field_parts::<raw::String>(1u32, v.name);
        let ghost rest1 = field_descriptor_proto_seq_parts(2u32, v.field) + (descriptor_proto_seq_parts(3u32, v.nested_type) + (enum_descriptor_proto_seq_parts(4u32, v.enum_type) + (extension_range_seq_parts(5u32, v.extension_range) + (field_descriptor_proto_seq_parts(6u32, v.extension) + (message_options_opt_parts(7u32, v.options) + (oneof_descriptor_proto_seq_parts(8u32, v.oneof_decl) + (reserved_range_seq_parts(9u32, v.reserved_range) + (unpacked_parts::<raw::String>(10u32, v.reserved_name) + (set_parts(v.unknown_fields))))))))));
        proof {
            assert(self@.name == opt_inner_view::<raw::String>(self.name));
            assert(all == d0 + (p1 + rest1));
            assert(d0 + (p1 + rest1) =~= d0 + p1 + rest1);
        }
        let r1 = add_opt_field::<raw::String>(b0, FieldNumber::new_unchecked(1), &self.name);
        proof {
            lemma_size_chain(0, d0, p1, Some(b0), r1);
            if r1 is None {
                lemma_size_chain(0, d0 + p1, rest1, r1, r1);
            }
        }
        let b1 = match r1 {
            Some(b) => b,
            None => return None,
        };
        let ghost d1 = d0 + p1;
        let ghost p2 = field_descriptor_proto_seq_parts(2u32, v.field);
        let ghost rest2 = descriptor_proto_seq_parts(3u32, v.nested_type) + (enum_descriptor_proto_seq_parts(4u32, v.enum_type) + (extension_range_seq_parts(5u32, v.extension_range) + (field_descriptor_proto_seq_parts(6u32, v.extension) + (message_options_opt_parts(7u32, v.options) + (oneof_descriptor_proto_seq_parts(8u32, v.oneof_decl) + (reserved_range_seq_parts(9u32, v.reserved_range) + (unpacked_parts::<raw::String>(10u32, v.reserved_name) + (set_parts(v.unknown_fields)))))))));
        proof {
            lemma_field_descriptor_proto_seq_view(self.field@);
            assert(self@.field == field_descriptor_proto_seq_view(self.field@));
            assert(all == d1 + (p2 + rest2));
            assert(d1 + (p2 + rest2) =~= d1 + p2 + rest2);
        }
        let r2 = field_descriptor_proto_values_size(&self.field, b1, FieldNumber::new_unchecked(2));
        proof {
            lemma_size_chain(0, d1, p2, Some(b1), r2);
            if r2 is None {
                lemma_size_chain(0, d1 + p2, rest2, r2, r2);
            }
        }
        let b2 = match r2 {
            Some(b) => b,
            None => return None,
        };
        let ghost d2 = d1 + p2;
        let ghost p3 = descriptor_proto_seq_parts(3u32, v.nested_type);
        let ghost rest3 = enum_descriptor_proto_seq_parts(4u32, v.enum_type) + (extension_range_seq_parts(5u32, v.extension_range) + (field_descriptor_proto_seq_parts(6u32, v.extension) + (message_options_opt_parts(7u32, v.options) + (oneof_descriptor_proto_seq_parts(8u32, v.oneof_decl) + (reserved_range_seq_parts(9u32, v.reserved_range) + (unpacked_parts::<raw::String>(10u32, v.reserved_name) + (set_parts(v.unknown_fields))))))));
        proof {
            lemma_descriptor_proto_seq_view(self.nested_type@);
            assert(self@.nested_type == descriptor_proto_seq_view(self.nested_type@));
            assert(all == d2 + (p3 + rest3));
            assert(d2 + (p3 + rest3) =~= d2 + p3 + rest3);
        }
        let r3 = descriptor_proto_values_size(&self.nested_type, b2, FieldNumber::new_unchecked(3));
        proof {
            lemma_size_chain(0, d2, p3, Some(b2), r3);
            if r3 is None {
                lemma_size_chain(0, d2 + p3, rest3, r3, r3);
            }
        }
        let b3 = match r3 {
            Some(b) => b,
            None => return None,
        };
        let ghost d3 = d2 + p3;
        let ghost p4 = enum_descriptor_proto_seq_parts(4u32, v.enum_type);
        let ghost rest4 = extension_range_seq_parts(5u32, v.extension_range) + (field_descriptor_proto_seq_parts(6u32, v.extension) + (message_options_opt_parts(7u32, v.options) + (oneof_descriptor_proto_seq_parts(8u32, v.oneof_decl) + (reserved_range_seq_parts(9u32, v.reserved_range) + (unpacked_parts::<raw::String>(10u32, v.reserved_name) + (set_parts(v.unknown_fields)))))));
        proof {
            lemma_enum_descriptor_proto_seq_view(self.enum_type@);
            assert(self@.enum_type == enum_descriptor_proto_seq_view(self.enum_type@));
            assert(all == d3 + (p4 + rest4));
            assert(d3 + (p4 + rest4) =~= d3 + p4 + rest4);
        }
        let r4 = enum_descriptor_proto_values_size(&self.enum_type, b3, FieldNumber::new_unchecked(4));
        proof {
            lemma_size_chain(0, d3, p4, Some(b3), r4);
            if r4 is None {
                lemma_size_chain(0, d3 + p4, rest4, r4, r4);
            }
        }
        let b4 = match r4 {
            Some(b) => b,
            None => return None,
        };
        let ghost d4 = d3 + p4;
        let ghost p5 = extension_range_seq_parts(5u32, v.extension_range);
        let ghost rest5 = field_descriptor_proto_seq_parts(6u32, v.extension) + (message_options_opt_parts(7u32, v.options) + (oneof_descriptor_proto_seq_parts(8u32, v.oneof_decl) + (reserved_range_seq_parts(9u32, v.reserved_range) + (unpacked_parts::<raw::String>(10u32, v.reserved_name) + (set_parts(v.unknown_fields))))));
        proof {
            lemma_extension_range_seq_view(self.extension_range@);
            assert(self@.extension_range == extension_range_seq_view(self.extension_range@));
            assert(all == d4 + (p5 + rest5));
            assert(d4 + (p5 + rest5) =~= d4 + p5 + rest5);
        }
        let r5 = extension_range_values_size(&self.extension_range, b4, FieldNumber::new_unchecked(5));
        proof {
            lemma_size_chain(0, d4, p5, Some(b4), r5);
            if r5 is None {
                lemma_size_chain(0, d4 + p5, rest5, r5, r5);
            }
        }
        let b5 = match r5 {
            Some(b) => b,
            None => return None,
        };
        let ghost d5 = d4 + p5;
        let ghost p6 = field_descriptor_proto_seq_parts(6u32, v.extension);
        let ghost rest6 = message_options_opt_parts(7u32, v.options) + (oneof_descriptor_proto_seq_parts(8u32, v.oneof_decl) + (reserved_range_seq_parts(9u32, v.reserved_range) + (unpacked_parts::<raw::String>(10u32, v.reserved_name) + (set_parts(v.unknown_fields)))));
        proof {
            lemma_field_descriptor_proto_seq_view(self.extension@);
            assert(self@.extension == field_descriptor_proto_seq_view(self.extension@));
            assert(all == d5 + (p6 + rest6));
            assert(d5 + (p6 + rest6) =~= d5 + p6 + rest6);
        }
        let r6 = field_descriptor_proto_values_size(&self.extension, b5, FieldNumber::new_unchecked(6));
        proof {
            lemma_size_chain(0, d5, p6, Some(b5), r6);
            if r6 is None {
                lemma_size_chain(0, d5 + p6, rest6, r6, r6);
            }
        }
        let b6 = match r6 {
            Some(b) => b,
            None => return None,
        };
        let ghost d6 = d5 + p6;
        let ghost p7 = message_options_opt_parts(7u32, v.options);
        let ghost rest7 = oneof_descriptor_proto_seq_parts(8u32, v.oneof_decl) + (reserved_range_seq_parts(9u32, v.reserved_range) + (unpacked_parts::<raw::String>(10u32, v.reserved_name) + (set_parts(v.unknown_fields))));
        proof {
            assert(self@.options == opt_view(self.options));
            assert(all == d6 + (p7 + rest7));
            assert(d6 + (p7 + rest7) =~= d6 + p7 + rest7);
        }
        let r7 = message_options_opt_size(&self.options, b6, FieldNumber::new_unchecked(7));
        proof {
            lemma_size_chain(0, d6, p7, Some(b6), r7);
            if r7 is None {
                lemma_size_chain(0, d6 + p7, rest7, r7, r7);
            }
        }
        let b7 = match r7 {
            Some(b) => b,
            None => return None,
        };
        let ghost d7 = d6 + p7;
        let ghost p8 = oneof_descriptor_proto_seq_parts(8u32, v.oneof_decl);
        let ghost rest8 = reserved_range_seq_parts(9u32, v.reserved_range) + (unpacked_parts::<raw::String>(10u32, v.reserved_name) + (set_parts(v.unknown_fields)));
        proof {
            lemma_oneof_descriptor_proto_seq_view(self.oneof_decl@);
            assert(self@.oneof_decl == oneof_descriptor_proto_seq_view(self.oneof_decl@));
            assert(all == d7 + (p8 + rest8));
            assert(d7 + (p8 + rest8) =~= d7 + p8 + rest8);
        }
        let r8 = oneof_descriptor_proto_values_size(&self.oneof_decl, b7, FieldNumber::new_unchecked(8));
        proof {
            lemma_size_chain(0, d7, p8, Some(b7), r8);
            if r8 is None {
                lemma_size_chain(0, d7 + p8, rest8, r8, r8);
            }
        }
        let b8 = match r8 {
            Some(b) => b,
            None => return None,
        };
        let ghost d8 = d7 + p8;
        let ghost p9 = reserved_range_seq_parts(9u32, v.reserved_range);
        let ghost rest9 = unpacked_parts::<raw::String>(10u32, v.reserved_name) + (set_parts(v.unknown_fields));
        proof {
            lemma_reserved_range_seq_view(self.reserved_range@);
            assert(self@.reserved_range == reserved_range_seq_view(self.reserved_range@));
            assert(all == d8 + (p9 + rest9));
            assert(d8 + (p9 + rest9) =~= d8 + p9 + rest9);
        }
        let r9 = reserved_range_values_size(&self.reserved_range, b8, FieldNumber::new_unchecked(9));
        proof {
            lemma_size_chain(0, d8, p9, Some(b8), r9);
            if r9 is None {
                lemma_size_chain(0, d8 + p9, rest9, r9, r9);
            }
        }
        let b9 = match r9 {
            Some(b) => b,
            None => return None,
        };
        let ghost d9 = d8 + p9;
        let ghost p10 = unpacked_parts::<raw::String>(10u32, v.reserved_name);
        let ghost rest10 = set_parts(v.unknown_fields);
        proof {
            <RepeatedField<std::string::String> as RepeatedValue<raw::String>>::lemma_countable(&self.reserved_name, 10u32);
            assert(all == d9 + (p10 + rest10));
            assert(d9 + (p10 + rest10) =~= d9 + p10 + rest10);
        }
        let r10 = <RepeatedField<std::string::String> as RepeatedValue<raw::String>>::calculate_size(&self.reserved_name, b9, FieldNumber::new_unchecked(10));
        proof {
            lemma_size_chain(0, d9, p10, Some(b9), r10);
            if r10 is None {
                lemma_size_chain(0, d9 + p10, rest10, r10, r10);
            }
        }
        let b10 = match r10 {
            Some(b) => b,
            None => return None,
        };
        let ghost d10 = d9 + p10;
        let ghost p11 = set_parts(v.unknown_fields);
        let ghost rest11 = Seq::<(bool, Seq<u8>)>::empty();
        proof {
            assert(all == d10 + p11);
            assert(p11 + rest11 =~= p11);
            assert(d10 + (p11 + rest11) =~= d10 + p11 + rest11);
        }
        let r11 = self.unknown_fields.calculate_size(b10);
        proof {
            lemma_size_chain(0, d10, p11, Some(b10), r11);
            if r11 is None {
                lemma_size_chain(0, d10 + p11, rest11, r11, r11);
            }
        }
        let b11 = match r11 {
            Some(b) => b,
            None => return None,
        };
        let ghost d11 = d10 + p11;
        Some(b11.build())
    }

    /// Writes the message to the writer: its fields that are set, in field number order, then
    /// its unknown fields.
    #[verifier::spinoff_prover]
    #[verifier::rlimit(100)]
    pub fn write_to(&self, output: &mut CodedWriter) -> (r: WriteResult)
        ensures
            (final(output).written(), r) == parts_written(old(output).written(), old(output).capacity(), descriptor_proto_parts(self@)),
            final(output).capacity() == old(output).capacity(),
            (*final(final(output).target()))@ == (*final(old(output).target()))@,
        decreases self@,
    {
        let ghost v = self@;
        let ghost all = descriptor_proto_parts(v);
        let ghost start = output.written();
        let ghost cap = output.capacity();
        let ghost d0 = Seq::<(bool, Seq<u8>)>::empty();
        proof {
            reveal(descriptor_proto_parts);
            assert(all =~= d0 + all);
        }
        let ghost p1 = opt_field_parts::<raw::String>(1u32, v.name);
        let ghost rest1 = field_descriptor_proto_seq_parts(2u32, v.field) + (descriptor_proto_seq_parts(3u32, v.nested_type) + (enum_descriptor_proto_seq_parts(4u32, v.enum_type) + (extension_range_seq_parts(5u32, v.extension_range) + (field_descriptor_proto_seq_parts(6u32, v.extension) + (message_options_opt_parts(7u32, v.options) + (oneof_descriptor_proto_seq_parts(8u32, v.oneof_decl) + (reserved_range_seq_parts(9u32, v.reserved_range) + (unpacked_parts::<raw::String>(10u32, v.reserved_name) + (set_parts(v.unknown_fields))))))))));
        proof {
            assert(self@.name == opt_inner_view::<raw::String>(self.name));
            assert(all == d0 + (p1 + rest1));
            assert(d0 + (p1 + rest1) =~= d0 + p1 + rest1);
            lemma_parts_written_append(start, cap, d0, p1);
            lemma_parts_written_append(start, cap, d0 + p1, rest1);
        }
        match write_opt_field::<raw::String>(output, FieldNumber::new_unchecked(1), &self.name) {
            Ok(()) => {},
            Err(e) => return Err(e),
        }
        let ghost d1 = d0 + p1;
        let ghost p2 = field_descriptor_proto_seq_parts(2u32, v.field);
        let ghost rest2 = descriptor_proto_seq_parts(3u32, v.nested_type) + (enum_descriptor_proto_seq_parts(4u32, v.enum_type) + (extension_range_seq_parts(5u32, v.extension_range) + (field_descriptor_proto_seq_parts(6u32, v.extension) + (message_options_opt_parts(7u32, v.options) + (oneof_descriptor_proto_seq_parts(8u32, v.oneof_decl) + (reserved_range_seq_parts(9u32, v.reserved_range) + (unpacked_parts::<raw::String>(10u32, v.reserved_name) + (set_parts(v.unknown_fields)))))))));
        proof {
            lemma_field_descriptor_proto_seq_view(self.field@);
            assert(self@.field == field_descriptor_proto_seq_view(self.field@));
            assert(all == d1 + (p2 + rest2));
            assert(d1 + (p2 + rest2) =~= d1 + p2 + rest2);
            lemma_parts_written_append(start, cap, d1, p2);
            lemma_parts_written_append(start, cap, d1 + p2, rest2);
        }
        match write_field_descriptor_proto_values(&self.field, output, FieldNumber::new_unchecked(2)) {
            Ok(()) => {},
            Err(e) => return Err(e),
        }
        let ghost d2 = d1 + p2;
        let ghost p3 = descriptor_proto_seq_parts(3u32, v.nested_type);
        let ghost rest3 = enum_descriptor_proto_seq_parts(4u32, v.enum_type) + (extension_range_seq_parts(5u32, v.extension_range) + (field_descriptor_proto_seq_parts(6u32, v.extension) + (message_options_opt_parts(7u32, v.options) + (oneof_descriptor_proto_seq_parts(8u32, v.oneof_decl) + (reserved_range_seq_parts(9u32, v.reserved_range) + (unpacked_parts::<raw::String>(10u32, v.reserved_name) + (set_parts(v.unknown_fields))))))));
        proof {
            lemma_descriptor_proto_seq_view(self.nested_type@);
            assert(self@.nested_type == descriptor_proto_seq_view(self.nested_type@));
            assert(all == d2 + (p3 + rest3));
            assert(d2 + (p3 + rest3) =~= d2 + p3 + rest3);
            lemma_parts_written_append(start, cap, d2, p3);
            lemma_parts_written_append(start, cap, d2 + p3, rest3);
        }
        match write_descriptor_proto_values(&self.nested_type, output, FieldNumber::new_unchecked(3)) {
            Ok(()) => {},
            Err(e) => return Err(e),
        }
        let ghost d3 = d2 + p3;
        let ghost p4 = enum_descriptor_proto_seq_parts(4u32, v.enum_type);
        let ghost rest4 = extension_range_seq_parts(5u32, v.extension_range) + (field_descriptor_proto_seq_parts(6u32, v.extension) + (message_options_opt_parts(7u32, v.options) + (oneof_descriptor_proto_seq_parts(8u32, v.oneof_decl) + (reserved_range_seq_parts(9u32, v.reserved_range) + (unpacked_parts::<raw::String>(10u32, v.reserved_name) + (set_parts(v.unknown_fields)))))));
        proof {
            lemma_enum_descriptor_proto_seq_view(self.enum_type@);
            assert(self@.enum_type == enum_descriptor_proto_seq_view(self.enum_type@));
            assert(all == d3 + (p4 + rest4));
            assert(d3 + (p4 + rest4) =~= d3 + p4 + rest4);
            lemma_parts_written_append(start, cap, d3, p4);
            lemma_parts_written_append(start, cap, d3 + p4, rest4);
        }
        match write_enum_descriptor_proto_values(&self.enum_type, output, FieldNumber::new_unchecked(4)) {
            Ok(()) => {},
            Err(e) => return Err(e),
        }
        let ghost d4 = d3 + p4;
        let ghost p5 = extension_range_seq_parts(5u32, v.extension_range);
        let ghost rest5 = field_descriptor_proto_seq_parts(6u32, v.extension) + (message_options_opt_parts(7u32, v.options) + (oneof_descriptor_proto_seq_parts(8u32, v.oneof_decl) + (reserved_range_seq_parts(9u32, v.reserved_range) + (unpacked_parts::<raw::String>(10u32, v.reserved_name) + (set_parts(v.unknown_fields))))));
        proof {
            lemma_extension_range_seq_view(self.extension_range@);
            assert(self@.extension_range == extension_range_seq_view(self.extension_range@));
            assert(all == d4 + (p5 + rest5));
            assert(d4 + (p5 + rest5) =~= d4 + p5 + rest5);
            lemma_parts_written_append(start, cap, d4, p5);
            lemma_parts_written_append(start, cap, d4 + p5, rest5);
        }
        match write_extension_range_values(&self.extension_range, output, FieldNumber::new_unchecked(5)) {
            Ok(()) => {},
            Err(e) => return Err(e),
        }
        let ghost d5 = d4 + p5;
        let ghost p6 = field_descriptor_proto_seq_parts(6u32, v.extension);
        let ghost rest6 = message_options_opt_parts(7u32, v.options) + (oneof_descriptor_proto_seq_parts(8u32, v.oneof_decl) + (reserved_range_seq_parts(9u32, v.reserved_range) + (unpacked_parts::<raw::String>(10u32, v.reserved_name) + (set_parts(v.unknown_fields)))));
        proof {
            lemma_field_descriptor_proto_seq_view(self.extension@);
            assert(self@.extension == field_descriptor_proto_seq_view(self.extension@));
            assert(all == d5 + (p6 + rest6));
            assert(d5 + (p6 + rest6) =~= d5 + p6 + rest6);
            lemma_parts_written_append(start, cap, d5, p6);
            lemma_parts_written_append(start, cap, d5 + p6, rest6);
        }
        match write_field_descriptor_proto_values(&self.extension, output, FieldNumber::new_unchecked(6)) {
            Ok(()) => {},
            Err(e) => return Err(e),
        }
        let ghost d6 = d5 + p6;
        let ghost p7 = message_options_opt_parts(7u32, v.options);
        let ghost rest7 = oneof_descriptor_proto_seq_parts(8u32, v.oneof_decl) + (reserved_range_seq_parts(9u32, v.reserved_range) + (unpacked_parts::<raw::String>(10u32, v.reserved_name) + (set_parts(v.unknown_fields))));
        proof {
            assert(self@.options == opt_view(self.options));
            assert(all == d6 + (p7 + rest7));
            assert(d6 + (p7 + rest7) =~= d6 + p7 + rest7);
            lemma_parts_written_append(start, cap, d6, p7);
            lemma_parts_written_append(start, cap, d6 + p7, rest7);
        }
        match write_message_options_opt(&self.options, output, FieldNumber::new_unchecked(7)) {
            Ok(()) => {},
            Err(e) => return Err(e),
        }
        let ghost d7 = d6 + p7;
        let ghost p8 = oneof_descriptor_proto_seq_parts(8u32, v.oneof_decl);
        let ghost rest8 = reserved_range_seq_parts(9u32, v.reserved_range) + (unpacked_parts::<raw::String>(10u32, v.reserved_name) + (set_parts(v.unknown_fields)));
        proof {
            lemma_oneof_descriptor_proto_seq_view(self.oneof_decl@);
            assert(self@.oneof_decl == oneof_descriptor_proto_seq_view(self.oneof_decl@));
            assert(all == d7 + (p8 + rest8));
            assert(d7 + (p8 + rest8) =~= d7 + p8 + rest8);
            lemma_parts_written_append(start, cap, d7, p8);
            lemma_parts_written_append(start, cap, d7 + p8, rest8);
        }
        match write_oneof_descriptor_proto_values(&self.oneof_decl, output, FieldNumber::new_unchecked(8)) {
            Ok(()) => {},
            Err(e) => return Err(e),
        }
        let ghost d8 = d7 + p8;
        let ghost p9 = reserved_range_seq_parts(9u32, v.reserved_range);
        let ghost rest9 = unpacked_parts::<raw::String>(10u32, v.reserved_name) + (set_parts(v.unknown_fields));
        proof {
            lemma_reserved_range_seq_view(self.reserved_range@);
            assert(self@.reserved_range == reserved_range_seq_view(self.reserved_range@));
            assert(all == d8 + (p9 + rest9));
            assert(d8 + (p9 + rest9) =~= d8 + p9 + rest9);
            lemma_parts_written_append(start, cap, d8, p9);
            lemma_parts_written_append(start, cap, d8 + p9, rest9);
        }
        match write_reserved_range_values(&self.reserved_range, output, FieldNumber::new_unchecked(9)) {
            Ok(()) => {},
            Err(e) => return Err(e),
        }
        let ghost d9 = d8 + p9;
        let ghost p10 = unpacked_parts::<raw::String>(10u32, v.reserved_name);
        let ghost rest10 = set_parts(v.unknown_fields);
        proof {
            assert(all == d9 + (p10 + rest10));
            assert(d9 + (p10 + rest10) =~= d9 + p10 + rest10);
            lemma_parts_written_append(start, cap, d9, p10);
            lemma_parts_written_append(start, cap, d9 + p10, rest10);
        }
        match <RepeatedField<std::string::String> as RepeatedValue<raw::String>>::write_to(&self.reserved_name, output, FieldNumber::new_unchecked(10)) {
            Ok(()) => {},
            Err(e) => return Err(e),
        }
        let ghost d10 = d9 + p10;
        let ghost p11 = set_parts(v.unknown_fields);
        let ghost rest11 = Seq::<(bool, Seq<u8>)>::empty();
        proof {
            assert(all == d10 + p11);
            assert(p11 + rest11 =~= p11);
            assert(d10 + (p11 + rest11) =~= d10 + p11 + rest11);
            lemma_parts_written_append(start, cap, d10, p11);
            lemma_parts_written_append(start, cap, d10 + p11, rest11);
        }
        match self.unknown_fields.write_to(output) {
            Ok(()) => {},
            Err(e) => return Err(e),
        }
        let ghost d11 = d10 + p11;
        proof {
            assert(all =~= d11 + Seq::<(bool, Seq<u8>)>::empty());
            assert(all == d11);
            lemma_ok_unit(parts_written(start, cap, all).1);
        }
        Ok(())
    }

    /// Reads the value of the field whose tag value `t` was just read into the message.
    #[verifier::spinoff_prover]
    fn merge_field(&mut self, t: u32, input: &mut CodedReader) -> (r: ReadResult<()>)
        ensures
            match descriptor_proto_field_read(old(self)@, t, old(input).available(), old(input).depth(), old(input).recursion_limit(), skips(*old(input)), old(input).end_group_view()) {
                Ok((m, v2)) => r is Ok && final(self)@ == v2 && m >= 0 && final(input).position()
                    == old(input).position() + m && same_state(*old(input), *final(input)),
                Err(e) => r == Err::<(), ReadError>(e) && same_config(*old(input), *final(input)),
            },
        decreases old(input).available().len(), 1nat,
    {
        let rem0 = input.remaining();
        let ghost rest = input.available();
        if t == 10u32 {
            proof {
                <raw::String as Value>::lemma_decoding_len(rest);
            }
            input.set_last_tag(Some(Tag::new(FieldNumber::new_unchecked(1), WireType::LengthDelimited)));
            match <raw::String as Value>::merge_from(self.name.get_or_insert(std::string::String::new()), input) {
                Ok(()) => {},
                Err(e) => return Err(e),
            }
        } else if t == 18u32 {
            proof {
                lemma_length_delimited_read_len(rest);
            }
            input.set_last_tag(Some(Tag::new(FieldNumber::new_unchecked(2), WireType::LengthDelimited)));
            let mut y = FieldDescriptorProto::default();
            match merge_field_descriptor_proto_delimited(&mut y, input) {
                Ok(()) => {},
                Err(e) => return Err(e),
            }
            let ghost old_values = self.field@;
            self.field.push(y);
            proof {
                assert(self.field@.subrange(0, self.field@.len() - 1) =~= old_values);
            }
        } else if t == 26u32 {
            proof {
                lemma_length_delimited_read_len(rest);
            }
            input.set_last_tag(Some(Tag::new(FieldNumber::new_unchecked(3), WireType::LengthDelimited)));
            let mut y = DescriptorProto::default();
            match merge_descriptor_proto_delimited(&mut y, input) {
                Ok(()) => {},
                Err(e) => return Err(e),
            }
            let ghost old_values = self.nested_type@;
            self.nested_type.push(y);
            proof {
                assert(self.nested_type@.subrange(0, self.nested_type@.len() - 1) =~= old_values);
            }
        } else if t == 34u32 {
            proof {
                lemma_length_delimited_read_len(rest);
            }
            input.set_last_tag(Some(Tag::new(FieldNumber::new_unchecked(4), WireType::LengthDelimited)));
            let mut y = EnumDescriptorProto::default();
            match merge_enum_descriptor_proto_delimited(&mut y, input) {
                Ok(()) => {},
                Err(e) => return Err(e),
            }
            let ghost old_values = self.enum_type@;
            self.enum_type.push(y);
            proof {
                assert(self.enum_type@.subrange(0, self.enum_type@.len() - 1) =~= old_values);
            }
        } else if t == 42u32 {
            proof {
                lemma_length_delimited_read_len(rest);
            }
            input.set_last_tag(Some(Tag::new(FieldNumber::new_unchecked(5), WireType::LengthDelimited)));
            let mut y = ExtensionRange::default();
            match merge_extension_range_delimited(&mut y, input) {
                Ok(()) => {},
                Err(e) => return Err(e),
            }
            let ghost old_values = self.extension_range@;
            self.extension_range.push(y);
            proof {
                assert(self.extension_range@.subrange(0, self.extension_range@.len() - 1) =~= old_values);
            }
        } else if t == 50u32 {
            proof {
                lemma_length_delimited_read_len(rest);
            }
            input.set_last_tag(Some(Tag::new(FieldNumber::new_unchecked(6), WireType::LengthDelimited)));
            let mut y = FieldDescriptorProto::default();
            match merge_field_descriptor_proto_delimited(&mut y, input) {
                Ok(()) => {},
                Err(e) => return Err(e),
            }
            let ghost old_values = self.extension@;
            self.extension.push(y);
            proof {
                assert(self.extension@.subrange(0, self.extension@.len() - 1) =~= old_values);
            }
        } else if t == 58u32 {
            proof {
                lemma_length_delimited_read_len(rest);
            }
            input.set_last_tag(Some(Tag::new(FieldNumber::new_unchecked(7), WireType::LengthDelimited)));
            match &mut self.options {
                Some(y) => match merge_message_options_delimited(y, input) {
                    Ok(()) => {},
                    Err(e) => return Err(e),
                },
                None => {
                    let mut y = MessageOptions::default();
                    match merge_message_options_delimited(&mut y, input) {
                        Ok(()) => {},
                        Err(e) => return Err(e),
                    }
                    self.options = Some(y);
                },
            }
        } else if t == 66u32 {
            proof {
                lemma_length_delimited_read_len(rest);
            }
            input.set_last_tag(Some(Tag::new(FieldNumber::new_unchecked(8), WireType::LengthDelimited)));
            let mut y = OneofDescriptorProto::default();
            match merge_oneof_descriptor_proto_delimited(&mut y, input) {
                Ok(()) => {},
                Err(e) => return Err(e),
            }
            let ghost old_values = self.oneof_decl@;
            self.oneof_decl.push(y);
            proof {
                assert(self.oneof_decl@.subrange(0, self.oneof_decl@.len() - 1) =~= old_values);
            }
        } else if t == 74u32 {
            proof {
                lemma_length_delimited_read_len(rest);
            }
            input.set_last_tag(Some(Tag::new(FieldNumber::new_unchecked(9), WireType::LengthDelimited)));
            let mut y = ReservedRange::default();
            match merge_reserved_range_delimited(&mut y, input) {
                Ok(()) => {},
                Err(e) => return Err(e),
            }
            let ghost old_values = self.reserved_range@;
            self.reserved_range.push(y);
            proof {
                assert(self.reserved_range@.subrange(0, self.reserved_range@.len() - 1) =~= old_values);
            }
        } else if t == 82u32 {
            proof {
                <raw::String as Value>::lemma_decoding_len(rest);
            }
            input.set_last_tag(Some(Tag::new(FieldNumber::new_unchecked(10), WireType::LengthDelimited)));
            match <RepeatedField<std::string::String> as RepeatedValue<raw::String>>::add_entries_from(&mut self.reserved_name, input) {
                Ok(()) => {},
                Err(e) => return Err(e),
            }
        } else {
            let tag = match Tag::try_from(t) {
                Ok(tag) => tag,
                Err(_) => return Err(ReadError::InvalidTag(t)),
            };
            input.set_last_tag(Some(tag));
            match self.unknown_fields.try_add_field_from(input) {
                Ok(TryRead::Consumed) => {},
                Ok(TryRead::Yielded) => match input.skip() {
                    Ok(()) => {},
                    Err(e) => return Err(e),
                },
                Err(e) => return Err(e),
            }
        }
        let rem1 = input.remaining();
        Ok(())
    }

    /// Merges the message with fields read from the reader, up to its limit. Scalar fields
    /// read replace those set, message fields are merged, repeated fields are added to,
    /// and unknown fields are stored or skipped as the reader says. On an error the message
    /// may hold some of the fields read before it.
    #[verifier::spinoff_prover]
    #[verifier::rlimit(50)]
    pub fn merge_from(&mut self, input: &mut CodedReader) -> (r: ReadResult<()>)
        ensures
            merge_outcome(descriptor_proto_merged(old(self)@, old(input).available(), old(input).depth(), old(input).recursion_limit(), skips(*old(input)), old(input).end_group_view()), final(self)@, *old(input), *final(input), r),
        decreases old(input).available().len(), 2nat,
    {
        let rem0 = input.remaining();
        let ghost start = *input;
        let ghost total = descriptor_proto_merged(self@, input.available(), input.depth(), input.recursion_limit(), skips(*input), input.end_group_view());
        loop
            invariant
                start == *old(input),
                same_state(start, *input),
                0 <= start.position() <= input.position(),
                input.limit_end() <= input.input().len(),
                total == descriptor_proto_merged(old(self)@, start.available(), start.depth(), start.recursion_limit(), skips(start), start.end_group_view()),
                total == descriptor_proto_merged(self@, input.available(), start.depth(), start.recursion_limit(), skips(start), start.end_group_view()),
            decreases input.available().len(),
        {
            let ghost s = input.available();
            let ghost before = *input;
            let ghost v = self@;
            let t = match input.read_field() {
                Ok(Some(t)) => t,
                Ok(None) => return Ok(()),
                Err(e) => return Err(e),
            };
            let rem1 = input.remaining();
            let ghost n = input.position() - before.position();
            proof {
                lemma_varint_read_len(s);
                assert(input.available() =~= s.skip(n));
            }
            let ghost mid = *input;
            match self.merge_field(t, input) {
                Ok(()) => {},
                Err(e) => return Err(e),
            }
            let rem2 = input.remaining();
            proof {
                let m = input.position() - mid.position();
                assert(input.available() =~= s.skip(n + m));
            }
        }
    }
}

impl crate::Message for DescriptorProto {
    open spec fn merged(v: DescriptorProtoView, s: Seq<u8>, depth: nat, limit: nat, skip: bool, eg: Option<Tag>) -> ReadResult<DescriptorProtoView> {
        descriptor_proto_merged(v, s, depth, limit, skip, eg)
    }

    open spec fn parts(v: DescriptorProtoView) -> Seq<(bool, Seq<u8>)> {
        descriptor_proto_parts(v)
    }

    open spec fn initialized(v: DescriptorProtoView) -> bool {
        true
    }

    open spec fn unknown_fields_of(v: DescriptorProtoView) -> Seq<(u32, Seq<FieldValue>)> {
        v.unknown_fields
    }

    open spec fn with_unknown_fields(v: DescriptorProtoView, u: Seq<(u32, Seq<FieldValue>)>) -> DescriptorProtoView {
        DescriptorProtoView { unknown_fields: u, ..v }
    }

    fn merge_from(&mut self, input: &mut CodedReader) -> (r: ReadResult<()>) {
        DescriptorProto::merge_from(self, input)
    }

    fn calculate_size(&self) -> (r: Option<Length>) {
        DescriptorProto::calculate_size(self)
    }

    fn write_to(&self, output: &mut CodedWriter) -> (r: WriteResult) {
        DescriptorProto::write_to(self, output)
    }

    fn is_initialized(&self) -> (r: bool) {
        DescriptorProto::is_initialized(self)
    }

    fn unknown_fields(&self) -> (r: &UnknownFieldSet) {
        DescriptorProto::unknown_fields(self)
    }

    fn unknown_fields_mut(&mut self) -> (r: &mut UnknownFieldSet) {
        DescriptorProto::unknown_fields_mut(self)
    }
}

impl DebugMessage for DescriptorProto {
    open spec fn spec_full_name() -> Seq<char> {
        "google.protobuf.DescriptorProto"@
    }

    open spec fn spec_name() -> Seq<char> {
        "DescriptorProto"@
    }

    fn full_name() -> (r: &'static str) {
        "google.protobuf.DescriptorProto"
    }

    fn name() -> (r: &'static str) {
        "DescriptorProto"
    }
}

/// Whether `t` is the tag of a field a `DescriptorProto` reads.
pub open spec fn descriptor_proto_known_tag(t: u32) -> bool {
    t == 10u32 || t == 18u32 || t == 26u32 || t == 34u32 || t == 42u32 || t == 50u32 || t == 58u32 || t == 66u32 || t == 74u32 || t == 82u32
}

/// Whether a `DescriptorProto` is read back as it is written, at nesting depth `depth` of a reader with
/// recursion limit `limit`: its messages are read back as written one level deeper, within
/// the limit; and its unknown fields are read back as written, none with the tag of one of
/// its fields.
pub open spec fn descriptor_proto_roundtrips(v: DescriptorProtoView, depth: nat, limit: nat) -> bool
    decreases v,
{
    &&& (v.options matches Some(y) ==> depth < limit && message_options_roundtrips(y, depth + 1, limit))
    &&& (v.field.len() > 0 ==> depth < limit)
    &&& forall|i: int| 0 <= i < v.field.len() ==> field_descriptor_proto_roundtrips(#[trigger] v.field[i], depth + 1, limit)
    &&& (v.extension.len() > 0 ==> depth < limit)
    &&& forall|i: int| 0 <= i < v.extension.len() ==> field_descriptor_proto_roundtrips(#[trigger] v.extension[i], depth + 1, limit)
    &&& (v.nested_type.len() > 0 ==> depth < limit)
    &&& forall|i: int| 0 <= i < v.nested_type.len() ==> descriptor_proto_roundtrips(#[trigger] v.nested_type[i], depth + 1, limit)
    &&& (v.enum_type.len() > 0 ==> depth < limit)
    &&& forall|i: int| 0 <= i < v.enum_type.len() ==> enum_descriptor_proto_roundtrips(#[trigger] v.enum_type[i], depth + 1, limit)
    &&& (v.extension_range.len() > 0 ==> depth < limit)
    &&& forall|i: int| 0 <= i < v.extension_range.len() ==> extension_range_roundtrips(#[trigger] v.extension_range[i], depth + 1, limit)
    &&& (v.oneof_decl.len() > 0 ==> depth < limit)
    &&& forall|i: int| 0 <= i < v.oneof_decl.len() ==> oneof_descriptor_proto_roundtrips(#[trigger] v.oneof_decl[i], depth + 1, limit)
    &&& (v.reserved_range.len() > 0 ==> depth < limit)
    &&& forall|i: int| 0 <= i < v.reserved_range.len() ==> reserved_range_roundtrips(#[trigger] v.reserved_range[i], depth + 1, limit)
    &&& set_readable(v.unknown_fields)
    &&& forall|k: int| 0 <= k < set_pairs(v.unknown_fields).len() ==> !descriptor_proto_known_tag(tag_value(
        #[trigger] set_pairs(v.unknown_fields)[k].0,
        field_value_wire_type(set_pairs(v.unknown_fields)[k].1),
    ))
}

/// Reading a `DescriptorProto` field whose tag is read from the front of `s` and whose value is read after
/// it continues with the rest of `s`.
proof fn lemma_descriptor_proto_step(v: DescriptorProtoView, s: Seq<u8>, k: int, t: u32, m: int, v2: DescriptorProtoView, depth: nat, limit: nat)
    requires
        varint_read(s) == Ok::<(int, u64), ReadError>((k, t as u64)),
        1 <= k <= s.len(),
        descriptor_proto_field_read(v, t, s.skip(k), depth, limit, false, None) == Ok::<(int, DescriptorProtoView), ReadError>((m, v2)),
        0 <= m,
        k + m <= s.len(),
    ensures
        descriptor_proto_merged(v, s, depth, limit, false, None) == descriptor_proto_merged(v2, s.skip(k + m), depth, limit, false, None),
{
    assert((t as u64) as u32 == t);
}

/// Reading the entries of `FieldDescriptorProto` values written as field `field` of a `DescriptorProto` adds the values.
#[verifier::spinoff_prover]
#[verifier::rlimit(60)]
proof fn lemma_descriptor_proto_read_field(v: DescriptorProtoView, ys: Seq<FieldDescriptorProtoView>, rest: Seq<u8>, depth: nat, limit: nat)
    requires
        parts_encodable(field_descriptor_proto_seq_parts(2u32, ys)),
        ys.len() > 0 ==> depth < limit,
        forall|i: int| 0 <= i < ys.len() ==> field_descriptor_proto_roundtrips(#[trigger] ys[i], depth + 1, limit),
    ensures
        descriptor_proto_merged(v, parts_bytes(field_descriptor_proto_seq_parts(2u32, ys)) + rest, depth, limit, false, None) == descriptor_proto_merged(
            DescriptorProtoView { field: v.field + ys, ..v },
            rest,
            depth, limit, false, None,
        ),
    decreases ys.len(),
{
    if ys.len() == 0 {
        assert(parts_bytes(field_descriptor_proto_seq_parts(2u32, ys)) + rest =~= rest);
        assert(v.field + ys =~= v.field);
    } else {
        let y = ys[0];
        let tail = ys.drop_first();
        assert forall|i: int| 0 <= i < tail.len() implies field_descriptor_proto_roundtrips(#[trigger] tail[i], depth + 1, limit) by {
            assert(tail[i] == ys[i + 1]);
        }
        lemma_field_descriptor_proto_seq_parts_front(2u32, ys);
        let ep = entry_parts(2u32, field_descriptor_proto_parts(y));
        lemma_parts_encodable_two(ep, field_descriptor_proto_seq_parts(2u32, tail));
        lemma_parts_bytes_append(ep, field_descriptor_proto_seq_parts(2u32, tail));
        assert(ep[1].0);
        let after = parts_bytes(field_descriptor_proto_seq_parts(2u32, tail)) + rest;
        let s = parts_bytes(field_descriptor_proto_seq_parts(2u32, ys)) + rest;
        assert(s =~= parts_bytes(ep) + after);
        lemma_entry_bytes_read(2u32, field_descriptor_proto_parts(y), after);
        lemma_tag_value(2u32, WireType::LengthDelimited);
        lemma_field_descriptor_proto_roundtrip(y, depth + 1, limit);
        let hl = parts_bytes(ep).len() as int;
        let k = varint_len(18u64) as int;
        let v2 = DescriptorProtoView { field: v.field.push(y), ..v };
        lemma_descriptor_proto_step(v, s, k, 18u32, hl - k, v2, depth, limit);
        lemma_descriptor_proto_read_field(v2, tail, rest, depth, limit);
        assert(v.field.push(y) + tail =~= v.field + ys);
    }
}

/// Reading the entries of `FieldDescriptorProto` values written as field `extension` of a `DescriptorProto` adds the values.
#[verifier::spinoff_prover]
#[verifier::rlimit(60)]
proof fn lemma_descriptor_proto_read_extension(v: DescriptorProtoView, ys: Seq<FieldDescriptorProtoView>, rest: Seq<u8>, depth: nat, limit: nat)
    requires
        parts_encodable(field_descriptor_proto_seq_parts(6u32, ys)),
        ys.len() > 0 ==> depth < limit,
        forall|i: int| 0 <= i < ys.len() ==> field_descriptor_proto_roundtrips(#[trigger] ys[i], depth + 1, limit),
    ensures
        descriptor_proto_merged(v, parts_bytes(field_descriptor_proto_seq_parts(6u32, ys)) + rest, depth, limit, false, None) == descriptor_proto_merged(
            DescriptorProtoView { extension: v.extension + ys, ..v },
            rest,
            depth, limit, false, None,
        ),
    decreases ys.len(),
{
    if ys.len() == 0 {
        assert(parts_bytes(field_descriptor_proto_seq_parts(6u32, ys)) + rest =~= rest);
        assert(v.extension + ys =~= v.extension);
    } else {
        let y = ys[0];
        let tail = ys.drop_first();
        assert forall|i: int| 0 <= i < tail.len() implies field_descriptor_proto_roundtrips(#[trigger] tail[i], depth + 1, limit) by {
            assert(tail[i] == ys[i + 1]);
        }
        lemma_field_descriptor_proto_seq_parts_front(6u32, ys);
        let ep = entry_parts(6u32, field_descriptor_proto_parts(y));
        lemma_parts_encodable_two(ep, field_descriptor_proto_seq_parts(6u32, tail));
        lemma_parts_bytes_append(ep, field_descriptor_proto_seq_parts(6u32, tail));
        assert(ep[1].0);
        let after = parts_bytes(field_descriptor_proto_seq_parts(6u32, tail)) + rest;
        let s = parts_bytes(field_descriptor_proto_seq_parts(6u32, ys)) + rest;
        assert(s =~= parts_bytes(ep) + after);
        lemma_entry_bytes_read(6u32, field_descriptor_proto_parts(y), after);
        lemma_tag_value(6u32, WireType::LengthDelimited);
        lemma_field_descriptor_proto_roundtrip(y, depth + 1, limit);
        let hl = parts_bytes(ep).len() as int;
        let k = varint_len(50u64) as int;
        let v2 = DescriptorProtoView { extension: v.extension.push(y), ..v };
        lemma_descriptor_proto_step(v, s, k, 50u32, hl - k, v2, depth, limit);
        lemma_descriptor_proto_read_extension(v2, tail, rest, depth, limit);
        assert(v.extension.push(y) + tail =~= v.extension + ys);
    }
}

/// Reading the entries of `DescriptorProto` values written as field `nested_type` of a `DescriptorProto` adds the values.
#[verifier::spinoff_prover]
#[verifier::rlimit(60)]
proof fn lemma_descriptor_proto_read_nested_type(v: DescriptorProtoView, ys: Seq<DescriptorProtoView>, rest: Seq<u8>, depth: nat, limit: nat)
    requires
        parts_encodable(descriptor_proto_seq_parts(3u32, ys)),
        ys.len() > 0 ==> depth < limit,
        forall|i: int| 0 <= i < ys.len() ==> descriptor_proto_roundtrips(#[trigger] ys[i], depth + 1, limit),
    ensures
        descriptor_proto_merged(v, parts_bytes(descriptor_proto_seq_parts(3u32, ys)) + rest, depth, limit, false, None) == descriptor_proto_merged(
            DescriptorProtoView { nested_type: v.nested_type + ys, ..v },
            rest,
            depth, limit, false, None,
        ),
    decreases parts_bytes(descriptor_proto_seq_parts(3u32, ys)).len(), 0nat,
{
    if ys.len() == 0 {
        assert(parts_bytes(descriptor_proto_seq_parts(3u32, ys)) + rest =~= rest);
        assert(v.nested_type + ys =~= v.nested_type);
    } else {
        let y = ys[0];
        let tail = ys.drop_first();
        assert forall|i: int| 0 <= i < tail.len() implies descriptor_proto_roundtrips(#[trigger] tail[i], depth + 1, limit) by {
            assert(tail[i] == ys[i + 1]);
        }
        lemma_descriptor_proto_seq_parts_front(3u32, ys);
        let ep = entry_parts(3u32, descriptor_proto_parts(y));
        lemma_parts_encodable_two(ep, descriptor_proto_seq_parts(3u32, tail));
        lemma_parts_bytes_append(ep, descriptor_proto_seq_parts(3u32, tail));
        assert(ep[1].0);
        let after = parts_bytes(descriptor_proto_seq_parts(3u32, tail)) + rest;
        let s = parts_bytes(descriptor_proto_seq_parts(3u32, ys)) + rest;
        assert(s =~= parts_bytes(ep) + after);
        lemma_entry_bytes_read(3u32, descriptor_proto_parts(y), after);
        lemma_tag_value(3u32, WireType::LengthDelimited);
        lemma_descriptor_proto_roundtrip(y, depth + 1, limit);
        let hl = parts_bytes(ep).len() as int;
        let k = varint_len(26u64) as int;
        let v2 = DescriptorProtoView { nested_type: v.nested_type.push(y), ..v };
        lemma_descriptor_proto_step(v, s, k, 26u32, hl - k, v2, depth, limit);
        lemma_descriptor_proto_read_nested_type(v2, tail, rest, depth, limit);
        assert(v.nested_type.push(y) + tail =~= v.nested_type + ys);
    }
}

/// Reading the entries of `EnumDescriptorProto` values written as field `enum_type` of a `DescriptorProto` adds the values.
#[verifier::spinoff_prover]
#[verifier::rlimit(60)]
proof fn lemma_descriptor_proto_read_enum_type(v: DescriptorProtoView, ys: Seq<EnumDescriptorProtoView>, rest: Seq<u8>, depth: nat, limit: nat)
    requires
        parts_encodable(enum_descriptor_proto_seq_parts(4u32, ys)),
        ys.len() > 0 ==> depth < limit,
        forall|i: int| 0 <= i < ys.len() ==> enum_descriptor_proto_roundtrips(#[trigger] ys[i], depth + 1, limit),
    ensures
        descriptor_proto_merged(v, parts_bytes(enum_descriptor_proto_seq_parts(4u32, ys)) + rest, depth, limit, false, None) == descriptor_proto_merged(
            DescriptorProtoView { enum_type: v.enum_type + ys, ..v },
            rest,
            depth, limit, false, None,
        ),
    decreases ys.len(),
{
    if ys.len() == 0 {
        assert(parts_bytes(enum_descriptor_proto_seq_parts(4u32, ys)) + rest =~= rest);
        assert(v.enum_type + ys =~= v.enum_type);
    } else {
        let y = ys[0];
        let tail = ys.drop_first();
        assert forall|i: int| 0 <= i < tail.len() implies enum_descriptor_proto_roundtrips(#[trigger] tail[i], depth + 1, limit) by {
            assert(tail[i] == ys[i + 1]);
        }
        lemma_enum_descriptor_proto_seq_parts_front(4u32, ys);
        let ep = entry_parts(4u32, enum_descriptor_proto_parts(y));
        lemma_parts_encodable_two(ep, enum_descriptor_proto_seq_parts(4u32, tail));
        lemma_parts_bytes_append(ep, enum_descriptor_proto_seq_parts(4u32, tail));
        assert(ep[1].0);
        let after = parts_bytes(enum_descriptor_proto_seq_parts(4u32, tail)) + rest;
        let s = parts_bytes(enum_descriptor_proto_seq_parts(4u32, ys)) + rest;
        assert(s =~= parts_bytes(ep) + after);
        lemma_entry_bytes_read(4u32, enum_descriptor_proto_parts(y), after);
        lemma_tag_value(4u32, WireType::LengthDelimited);
        lemma_enum_descriptor_proto_roundtrip(y, depth + 1, limit);
        let hl = parts_bytes(ep).len() as int;
        let k = varint_len(34u64) as int;
        let v2 = DescriptorProtoView { enum_type: v.enum_type.push(y), ..v };
        lemma_descriptor_proto_step(v, s, k, 34u32, hl - k, v2, depth, limit);
        lemma_descriptor_proto_read_enum_type(v2, tail, rest, depth, limit);
        assert(v.enum_type.push(y) + tail =~= v.enum_type + ys);
    }
}

/// Reading the entries of `ExtensionRange` values written as field `extension_range` of a `DescriptorProto` adds the values.
#[verifier::spinoff_prover]
#[verifier::rlimit(60)]
proof fn lemma_descriptor_proto_read_extension_range(v: DescriptorProtoView, ys: Seq<ExtensionRangeView>, rest: Seq<u8>, depth: nat, limit: nat)
    requires
        parts_encodable(extension_range_seq_parts(5u32, ys)),
        ys.len() > 0 ==> depth < limit,
        forall|i: int| 0 <= i < ys.len() ==> extension_range_roundtrips(#[trigger] ys[i], depth + 1, limit),
    ensures
        descriptor_proto_merged(v, parts_bytes(extension_range_seq_parts(5u32, ys)) + rest, depth, limit, false, None) == descriptor_proto_merged(
            DescriptorProtoView { extension_range: v.extension_range + ys, ..v },
            rest,
            depth, limit, false, None,
        ),
    decreases ys.len(),
{
    if ys.len() == 0 {
        assert(parts_bytes(extension_range_seq_parts(5u32, ys)) + rest =~= rest);
        assert(v.extension_range + ys =~= v.extension_range);
    } else {
        let y = ys[0];
        let tail = ys.drop_first();
        assert forall|i: int| 0 <= i < tail.len() implies extension_range_roundtrips(#[trigger] tail[i], depth + 1, limit) by {
            assert(tail[i] == ys[i + 1]);
        }
        lemma_extension_range_seq_parts_front(5u32, ys);
        let ep = entry_parts(5u32, extension_range_parts(y));
        lemma_parts_encodable_two(ep, extension_range_seq_parts(5u32, tail));
        lemma_parts_bytes_append(ep, extension_range_seq_parts(5u32, tail));
        assert(ep[1].0);
        let after = parts_bytes(extension_range_seq_parts(5u32, tail)) + rest;
        let s = parts_bytes(extension_range_seq_parts(5u32, ys)) + rest;
        assert(s =~= parts_bytes(ep) + after);
        lemma_entry_bytes_read(5u32, extension_range_parts(y), after);
        lemma_tag_value(5u32, WireType::LengthDelimited);
        lemma_extension_range_roundtrip(y, depth + 1, limit);
        let hl = parts_bytes(ep).len() as int;
        let k = varint_len(42u64) as int;
        let v2 = DescriptorProtoView { extension_range: v.extension_range.push(y), ..v };
        lemma_descriptor_proto_step(v, s, k, 42u32, hl - k, v2, depth, limit);
        lemma_descriptor_proto_read_extension_range(v2, tail, rest, depth, limit);
        assert(v.extension_range.push(y) + tail =~= v.extension_range + ys);
    }
}

/// Reading the entries of `OneofDescriptorProto` values written as field `oneof_decl` of a `DescriptorProto` adds the values.
#[verifier::spinoff_prover]
#[verifier::rlimit(60)]
proof fn lemma_descriptor_proto_read_oneof_decl(v: DescriptorProtoView, ys: Seq<OneofDescriptorProtoView>, rest: Seq<u8>, depth: nat, limit: nat)
    requires
        parts_encodable(oneof_descriptor_proto_seq_parts(8u32, ys)),
        ys.len() > 0 ==> depth < limit,
        forall|i: int| 0 <= i < ys.len() ==> oneof_descriptor_proto_roundtrips(#[trigger] ys[i], depth + 1, limit),
    ensures
        descriptor_proto_merged(v, parts_bytes(oneof_descriptor_proto_seq_parts(8u32, ys)) + rest, depth, limit, false, None) == descriptor_proto_merged(
            DescriptorProtoView { oneof_decl: v.oneof_decl + ys, ..v },
            rest,
            depth, limit, false, None,
        ),
    decreases ys.len(),
{
    if ys.len() == 0 {
        assert(parts_bytes(oneof_descriptor_proto_seq_parts(8u32, ys)) + rest =~= rest);
        assert(v.oneof_decl + ys =~= v.oneof_decl);
    } else {
        let y = ys[0];
        let tail = ys.drop_first();
        assert forall|i: int| 0 <= i < tail.len() implies oneof_descriptor_proto_roundtrips(#[trigger] tail[i], depth + 1, limit) by {
            assert(tail[i] == ys[i + 1]);
        }
        lemma_oneof_descriptor_proto_seq_parts_front(8u32, ys);
        let ep = entry_parts(8u32, oneof_descriptor_proto_parts(y));
        lemma_parts_encodable_two(ep, oneof_descriptor_proto_seq_parts(8u32, tail));
        lemma_parts_bytes_append(ep, oneof_descriptor_proto_seq_parts(8u32, tail));
        assert(ep[1].0);
        let after = parts_bytes(oneof_descriptor_proto_seq_parts(8u32, tail)) + rest;
        let s = parts_bytes(oneof_descriptor_proto_seq_parts(8u32, ys)) + rest;
        assert(s =~= parts_bytes(ep) + after);
        lemma_entry_bytes_read(8u32, oneof_descriptor_proto_parts(y), after);
        lemma_tag_value(8u32, WireType::LengthDelimited);
        lemma_oneof_descriptor_proto_roundtrip(y, depth + 1, limit);
        let hl = parts_bytes(ep).len() as int;
        let k = varint_len(66u64) as int;
        let v2 = DescriptorProtoView { oneof_decl: v.oneof_decl.push(y), ..v };
        lemma_descriptor_proto_step(v, s, k, 66u32, hl - k, v2, depth, limit);
        lemma_descriptor_proto_read_oneof_decl(v2, tail, rest, depth, limit);
        assert(v.oneof_decl.push(y) + tail =~= v.oneof_decl + ys);
    }
}

/// Reading the entries of `ReservedRange` values written as field `reserved_range` of a `DescriptorProto` adds the values.
#[verifier::spinoff_prover]
#[verifier::rlimit(60)]
proof fn lemma_descriptor_proto_read_reserved_range(v: DescriptorProtoView, ys: Seq<ReservedRangeView>, rest: Seq<u8>, depth: nat, limit: nat)
    requires
        parts_encodable(reserved_range_seq_parts(9u32, ys)),
        ys.len() > 0 ==> depth < limit,
        forall|i: int| 0 <= i < ys.len() ==> reserved_range_roundtrips(#[trigger] ys[i], depth + 1, limit),
    ensures
        descriptor_proto_merged(v, parts_bytes(reserved_range_seq_parts(9u32, ys)) + rest, depth, limit, false, None) == descriptor_proto_merged(
            DescriptorProtoView { reserved_range: v.reserved_range + ys, ..v },
            rest,
            depth, limit, false, None,
        ),
    decreases ys.len(),
{
    if ys.len() == 0 {
        assert(parts_bytes(reserved_range_seq_parts(9u32, ys)) + rest =~= rest);
        assert(v.reserved_range + ys =~= v.reserved_range);
    } else {
        let y = ys[0];
        let tail = ys.drop_first();
        assert forall|i: int| 0 <= i < tail.len() implies reserved_range_roundtrips(#[trigger] tail[i], depth + 1, limit) by {
            assert(tail[i] == ys[i + 1]);
        }
        lemma_reserved_range_seq_parts_front(9u32, ys);
        let ep = entry_parts(9u32, reserved_range_parts(y));
        lemma_parts_encodable_two(ep, reserved_range_seq_parts(9u32, tail));
        lemma_parts_bytes_append(ep, reserved_range_seq_parts(9u32, tail));
        assert(ep[1].0);
        let after = parts_bytes(reserved_range_seq_parts(9u32, tail)) + rest;
        let s = parts_bytes(reserved_range_seq_parts(9u32, ys)) + rest;
        assert(s =~= parts_bytes(ep) + after);
        lemma_entry_bytes_read(9u32, reserved_range_parts(y), after);
        lemma_tag_value(9u32, WireType::LengthDelimited);
        lemma_reserved_range_roundtrip(y, depth + 1, limit);
        let hl = parts_bytes(ep).len() as int;
        let k = varint_len(74u64) as int;
        let v2 = DescriptorProtoView { reserved_range: v.reserved_range.push(y), ..v };
        lemma_descriptor_proto_step(v, s, k, 74u32, hl - k, v2, depth, limit);
        lemma_descriptor_proto_read_reserved_range(v2, tail, rest, depth, limit);
        assert(v.reserved_range.push(y) + tail =~= v.reserved_range + ys);
    }
}

/// Reading the values written unpacked as field `reserved_name` of a `DescriptorProto` adds the values.
proof fn lemma_descriptor_proto_read_reserved_name(v: DescriptorProtoView, vs: Seq<Seq<char>>, rest: Seq<u8>, depth: nat, limit: nat)
    requires
        forall|i: int| 0 <= i < vs.len() ==> <raw::String as Value>::encodable(#[trigger] vs[i]),
    ensures
        descriptor_proto_merged(v, parts_bytes(unpacked_parts::<raw::String>(10u32, vs)) + rest, depth, limit, false, None) == descriptor_proto_merged(
            DescriptorProtoView { reserved_name: v.reserved_name + vs, ..v },
            rest,
            depth, limit, false, None,
        ),
    decreases vs.len(),
{
    if vs.len() == 0 {
        assert(parts_bytes(unpacked_parts::<raw::String>(10u32, vs)) + rest =~= rest);
        assert(v.reserved_name + vs =~= v.reserved_name);
    } else {
        let x = vs[0];
        let tail = vs.drop_first();
        assert forall|i: int| 0 <= i < tail.len() implies <raw::String as Value>::encodable(#[trigger] tail[i]) by {
            assert(tail[i] == vs[i + 1]);
        }
        lemma_unpacked_front::<raw::String>(10u32, vs);
        lemma_parts_bytes_append(field_parts::<raw::String>(10u32, x), unpacked_parts::<raw::String>(10u32, tail));
        let after = parts_bytes(unpacked_parts::<raw::String>(10u32, tail)) + rest;
        let s = parts_bytes(unpacked_parts::<raw::String>(10u32, vs)) + rest;
        assert(s =~= parts_bytes(field_parts::<raw::String>(10u32, x)) + after);
        lemma_field_bytes_read::<raw::String>(10u32, x, after);
        lemma_tag_value(10u32, WireType::LengthDelimited);
        let hl = parts_bytes(field_parts::<raw::String>(10u32, x)).len() as int;
        let k = varint_len(82u64) as int;
        let v2 = DescriptorProtoView { reserved_name: v.reserved_name + seq![x], ..v };
        lemma_descriptor_proto_step(v, s, k, 82u32, hl - k, v2, depth, limit);
        lemma_descriptor_proto_read_reserved_name(v2, tail, rest, depth, limit);
        assert(v.reserved_name + seq![x] + tail =~= v.reserved_name + vs);
    }
}

/// Reading the field `name` of a `DescriptorProto` written from `o` sets it to `o`, whatever it held; nothing
/// is written, and nothing changes, for `None`.
proof fn lemma_descriptor_proto_read_name(d: DescriptorProtoView, o: Option<Seq<char>>, rest: Seq<u8>, depth: nat, limit: nat)
    requires
        parts_encodable(opt_field_parts::<raw::String>(1u32, o)),
    ensures
        descriptor_proto_merged(d, parts_bytes(opt_field_parts::<raw::String>(1u32, o)) + rest, depth, limit, false, None) == descriptor_proto_merged(if o is Some { DescriptorProtoView { name: o, ..d } } else { d }, rest, depth, limit, false, None),
{
    match o {
        None => {
            assert(parts_bytes(opt_field_parts::<raw::String>(1u32, o)) + rest =~= rest);
        },
        Some(x) => {
            let p = field_parts::<raw::String>(1u32, x);
            assert(p[1].0);
            let s = parts_bytes(p) + rest;
            lemma_field_bytes_read::<raw::String>(1u32, x, rest);
            lemma_tag_value(1u32, WireType::LengthDelimited);
            let hl = parts_bytes(p).len() as int;
            let k = varint_len(10u64) as int;
            let v2 = DescriptorProtoView { name: Some(x), ..d };
            lemma_descriptor_proto_step(d, s, k, 10u32, hl - k, v2, depth, limit);
        },
    }
}

/// Reading the field `options` of a `DescriptorProto` written from `o`, where the message does not hold it,
/// sets it to `o`; nothing is written, and nothing changes, for `None`.
#[verifier::rlimit(40)]
proof fn lemma_descriptor_proto_read_options(d: DescriptorProtoView, o: Option<MessageOptionsView>, rest: Seq<u8>, depth: nat, limit: nat)
    requires
        o is Some ==> d.options is None,
        parts_encodable(message_options_opt_parts(7u32, o)),
        o matches Some(y) ==> depth < limit && message_options_roundtrips(y, depth + 1, limit),
    ensures
        descriptor_proto_merged(d, parts_bytes(message_options_opt_parts(7u32, o)) + rest, depth, limit, false, None) == descriptor_proto_merged(if o is Some { DescriptorProtoView { options: o, ..d } } else { d }, rest, depth, limit, false, None),
{
    match o {
        None => {
            assert(parts_bytes(message_options_opt_parts(7u32, o)) + rest =~= rest);
        },
        Some(y) => {
            let ep = entry_parts(7u32, message_options_parts(y));
            assert(ep[1].0);
            let s = parts_bytes(ep) + rest;
            lemma_entry_bytes_read(7u32, message_options_parts(y), rest);
            lemma_tag_value(7u32, WireType::LengthDelimited);
            lemma_parts_encodable_two(entry_head(7u32, message_options_parts(y)), message_options_parts(y));
            lemma_message_options_roundtrip(y, depth + 1, limit);
            let hl = parts_bytes(ep).len() as int;
            let k = varint_len(58u64) as int;
            let v2 = DescriptorProtoView { options: Some(y), ..d };
            lemma_descriptor_proto_step(d, s, k, 58u32, hl - k, v2, depth, limit);
            assert(s.skip(hl) == rest);
        },
    }
}

/// Reading the field `options` of a `DescriptorProto` merges what is read into the value the message already
/// holds there (or into a default value, where it holds none): the field read from the bytes
/// written from `y` becomes the existing value with the bytes of `y` merged into it, and the
/// rest is read into the message so changed. Past the recursion limit the read is refused.
#[verifier::rlimit(40)]
pub proof fn lemma_descriptor_proto_merge_options(d: DescriptorProtoView, y: MessageOptionsView, rest: Seq<u8>, depth: nat, limit: nat)
    requires
        parts_encodable(message_options_opt_parts(7u32, Some(y))),
    ensures
        descriptor_proto_merged(d, parts_bytes(message_options_opt_parts(7u32, Some(y))) + rest, depth, limit, false, None) == if depth >= limit {
            Err::<DescriptorProtoView, ReadError>(ReadError::RecursionLimitExceeded)
        } else {
            match message_options_merged(match d.options { Some(o) => o, None => message_options_default() }, parts_bytes(message_options_parts(y)), depth + 1, limit, false, None) {
                Ok(z) => descriptor_proto_merged(DescriptorProtoView { options: Some(z), ..d }, rest, depth, limit, false, None),
                Err(e) => Err(e),
            }
        },
{
    let ep = entry_parts(7u32, message_options_parts(y));
    assert(message_options_opt_parts(7u32, Some(y)) == ep);
    assert(ep[1].0);
    let s = parts_bytes(ep) + rest;
    lemma_entry_bytes_read(7u32, message_options_parts(y), rest);
    lemma_tag_value(7u32, WireType::LengthDelimited);
    let hl = parts_bytes(ep).len() as int;
    let k = varint_len(58u64) as int;
    assert((58u64 as u64) as u32 == 58u32);
    if depth < limit {
        match message_options_merged(match d.options { Some(o) => o, None => message_options_default() }, parts_bytes(message_options_parts(y)), depth + 1, limit, false, None) {
            Ok(z) => {
                let v2 = DescriptorProtoView { options: Some(z), ..d };
                lemma_descriptor_proto_step(d, s, k, 58u32, hl - k, v2, depth, limit);
                assert(s.skip(hl) == rest);
            },
            Err(e) => {},
        }
    }
}

/// Merging the bytes written for the field `options` of a `DescriptorProto` from `y` into `d` merges `y` into
/// the value `d` holds there (or into a default value, where it holds none), as merging
/// messages does, where `y` is read back as written and the existing value holds none of the
/// message fields `y` holds.
pub proof fn lemma_descriptor_proto_merge_options_written(d: DescriptorProtoView, y: MessageOptionsView, rest: Seq<u8>, depth: nat, limit: nat)
    requires
        parts_encodable(message_options_opt_parts(7u32, Some(y))),
        depth < limit,
        message_options_roundtrips(y, depth + 1, limit),
    ensures
        descriptor_proto_merged(d, parts_bytes(message_options_opt_parts(7u32, Some(y))) + rest, depth, limit, false, None) == descriptor_proto_merged(DescriptorProtoView { options: Some(message_options_merge_view(match d.options { Some(o) => o, None => message_options_default() }, y)), ..d }, rest, depth, limit, false, None),
{
    lemma_descriptor_proto_merge_options(d, y, rest, depth, limit);
    lemma_parts_encodable_two(entry_head(7u32, message_options_parts(y)), message_options_parts(y));
    assert(message_options_opt_parts(7u32, Some(y)) == entry_parts(7u32, message_options_parts(y)));
    lemma_message_options_merge_written(match d.options { Some(o) => o, None => message_options_default() }, y, depth + 1, limit);
}

/// Reading unknown field values written one after the other into a `DescriptorProto`, none with the tag
/// of one of its fields, adds them to its unknown fields.
#[verifier::rlimit(60)]
proof fn lemma_descriptor_proto_read_unknown(v: DescriptorProtoView, ps: Seq<(u32, FieldValue)>, rest: Seq<u8>, depth: nat, limit: nat)
    requires
        forall|k: int| 0 <= k < ps.len() ==> value_readable(#[trigger] ps[k].0, ps[k].1) && !descriptor_proto_known_tag(
            tag_value(ps[k].0, field_value_wire_type(ps[k].1)),
        ),
    ensures
        descriptor_proto_merged(v, parts_bytes(pairs_parts(ps)) + rest, depth, limit, false, None) == descriptor_proto_merged(
            DescriptorProtoView { unknown_fields: push_pairs(v.unknown_fields, ps), ..v },
            rest,
            depth, limit, false, None,
        ),
    decreases ps.len(),
{
    if ps.len() == 0 {
        assert(parts_bytes(pairs_parts(ps)) + rest =~= rest);
    } else {
        let n = ps[0].0;
        let fv = ps[0].1;
        let tail = ps.drop_first();
        assert forall|k: int| 0 <= k < tail.len() implies value_readable(#[trigger] tail[k].0, tail[k].1) && !descriptor_proto_known_tag(
            tag_value(tail[k].0, field_value_wire_type(tail[k].1)),
        ) by {
            assert(tail[k] == ps[k + 1]);
        }
        assert(value_readable(ps[0].0, ps[0].1));
        lemma_parts_bytes_append(field_value_parts(n, fv), pairs_parts(tail));
        let after = parts_bytes(pairs_parts(tail)) + rest;
        let s = parts_bytes(pairs_parts(ps)) + rest;
        assert(s =~= parts_bytes(field_value_parts(n, fv)) + after);
        lemma_read_value_bytes(n, fv, after);
        let t = tag_value(n, field_value_wire_type(fv));
        let hl = parts_bytes(field_value_parts(n, fv)).len() as int;
        let k = varint_len(t as u64) as int;
        let v2 = DescriptorProtoView { unknown_fields: view_push(v.unknown_fields, n, fv), ..v };
        lemma_descriptor_proto_step(v, s, k, t, hl - k, v2, depth, limit);
        lemma_descriptor_proto_read_unknown(v2, tail, rest, depth, limit);
    }
}

/// The writability of the parts of a `DescriptorProto` is that of each field's parts.
proof fn lemma_descriptor_proto_parts_encodable(v: DescriptorProtoView)
    ensures
        parts_encodable(descriptor_proto_parts(v)) == (parts_encodable(opt_field_parts::<raw::String>(1u32, v.name)) && parts_encodable(field_descriptor_proto_seq_parts(2u32, v.field)) && parts_encodable(descriptor_proto_seq_parts(3u32, v.nested_type)) && parts_encodable(enum_descriptor_proto_seq_parts(4u32, v.enum_type)) && parts_encodable(extension_range_seq_parts(5u32, v.extension_range)) && parts_encodable(field_descriptor_proto_seq_parts(6u32, v.extension)) && parts_encodable(message_options_opt_parts(7u32, v.options)) && parts_encodable(oneof_descriptor_proto_seq_parts(8u32, v.oneof_decl)) && parts_encodable(reserved_range_seq_parts(9u32, v.reserved_range)) && parts_encodable(unpacked_parts::<raw::String>(10u32, v.reserved_name)) && parts_encodable(set_parts(v.unknown_fields))),
{
    reveal(descriptor_proto_parts);
    let p0 = opt_field_parts::<raw::String>(1u32, v.name);
    let p1 = field_descriptor_proto_seq_parts(2u32, v.field);
    let p2 = descriptor_proto_seq_parts(3u32, v.nested_type);
    let p3 = enum_descriptor_proto_seq_parts(4u32, v.enum_type);
    let p4 = extension_range_seq_parts(5u32, v.extension_range);
    let p5 = field_descriptor_proto_seq_parts(6u32, v.extension);
    let p6 = message_options_opt_parts(7u32, v.options);
    let p7 = oneof_descriptor_proto_seq_parts(8u32, v.oneof_decl);
    let p8 = reserved_range_seq_parts(9u32, v.reserved_range);
    let p9 = unpacked_parts::<raw::String>(10u32, v.reserved_name);
    let p10 = set_parts(v.unknown_fields);
    let q10 = p10;
    let q9 = p9 + q10;
    lemma_parts_encodable_two(p9, q10);
    let q8 = p8 + q9;
    lemma_parts_encodable_two(p8, q9);
    let q7 = p7 + q8;
    lemma_parts_encodable_two(p7, q8);
    let q6 = p6 + q7;
    lemma_parts_encodable_two(p6, q7);
    let q5 = p5 + q6;
    lemma_parts_encodable_two(p5, q6);
    let q4 = p4 + q5;
    lemma_parts_encodable_two(p4, q5);
    let q3 = p3 + q4;
    lemma_parts_encodable_two(p3, q4);
    let q2 = p2 + q3;
    lemma_parts_encodable_two(p2, q3);
    let q1 = p1 + q2;
    lemma_parts_encodable_two(p1, q2);
    let q0 = p0 + q1;
    lemma_parts_encodable_two(p0, q1);
    assert(descriptor_proto_parts(v) == q0);
}

/// The bytes of the parts of a `DescriptorProto` are those of each field's parts, one after the other.
proof fn lemma_descriptor_proto_parts_bytes(v: DescriptorProtoView)
    ensures
        parts_bytes(descriptor_proto_parts(v)) == parts_bytes(opt_field_parts::<raw::String>(1u32, v.name)) + (parts_bytes(field_descriptor_proto_seq_parts(2u32, v.field)) + (parts_bytes(descriptor_proto_seq_parts(3u32, v.nested_type)) + (parts_bytes(enum_descriptor_proto_seq_parts(4u32, v.enum_type)) + (parts_bytes(extension_range_seq_parts(5u32, v.extension_range)) + (parts_bytes(field_descriptor_proto_seq_parts(6u32, v.extension)) + (parts_bytes(message_options_opt_parts(7u32, v.options)) + (parts_bytes(oneof_descriptor_proto_seq_parts(8u32, v.oneof_decl)) + (parts_bytes(reserved_range_seq_parts(9u32, v.reserved_range)) + (parts_bytes(unpacked_parts::<raw::String>(10u32, v.reserved_name)) + parts_bytes(set_parts(v.unknown_fields))))))))))),
{
    reveal(descriptor_proto_parts);
    let p0 = opt_field_parts::<raw::String>(1u32, v.name);
    let p1 = field_descriptor_proto_seq_parts(2u32, v.field);
    let p2 = descriptor_proto_seq_parts(3u32, v.nested_type);
    let p3 = enum_descriptor_proto_seq_parts(4u32, v.enum_type);
    let p4 = extension_range_seq_parts(5u32, v.extension_range);
    let p5 = field_descriptor_proto_seq_parts(6u32, v.extension);
    let p6 = message_options_opt_parts(7u32, v.options);
    let p7 = oneof_descriptor_proto_seq_parts(8u32, v.oneof_decl);
    let p8 = reserved_range_seq_parts(9u32, v.reserved_range);
    let p9 = unpacked_parts::<raw::String>(10u32, v.reserved_name);
    let p10 = set_parts(v.unknown_fields);
    let q10 = p10;
    let q9 = p9 + q10;
    lemma_parts_bytes_append(p9, q10);
    let q8 = p8 + q9;
    lemma_parts_bytes_append(p8, q9);
    let q7 = p7 + q8;
    lemma_parts_bytes_append(p7, q8);
    let q6 = p6 + q7;
    lemma_parts_bytes_append(p6, q7);
    let q5 = p5 + q6;
    lemma_parts_bytes_append(p5, q6);
    let q4 = p4 + q5;
    lemma_parts_bytes_append(p4, q5);
    let q3 = p3 + q4;
    lemma_parts_bytes_append(p3, q4);
    let q2 = p2 + q3;
    lemma_parts_bytes_append(p2, q3);
    let q1 = p1 + q2;
    lemma_parts_bytes_append(p1, q2);
    let q0 = p0 + q1;
    lemma_parts_bytes_append(p0, q1);
    assert(descriptor_proto_parts(v) == q0);
}

/// The message a `DescriptorProto` `d` becomes when `v` is merged into it: each field `v` holds once
/// replaces the one `d` holds, the values of each repeated field of `v` follow those of `d`,
/// and the unknown fields of `v` are added to those of `d`, field number by field number.
pub open spec fn descriptor_proto_merge_view(d: DescriptorProtoView, v: DescriptorProtoView) -> DescriptorProtoView {
    DescriptorProtoView { name: newer_or(v.name, d.name), field: d.field + v.field, extension: d.extension + v.extension, nested_type: d.nested_type + v.nested_type, enum_type: d.enum_type + v.enum_type, extension_range: d.extension_range + v.extension_range, oneof_decl: d.oneof_decl + v.oneof_decl, options: newer_or(v.options, d.options), reserved_range: d.reserved_range + v.reserved_range, reserved_name: d.reserved_name + v.reserved_name, unknown_fields: view_merge(d.unknown_fields, v.unknown_fields) }
}

/// Reading the bytes of the parts of a `DescriptorProto` `v`, field by field, into `d` merges `v` into `d`.
#[verifier::spinoff_prover]
#[verifier::rlimit(100)]
proof fn lemma_descriptor_proto_merge_all(d: DescriptorProtoView, v: DescriptorProtoView, depth: nat, limit: nat)
    requires
        parts_encodable(opt_field_parts::<raw::String>(1u32, v.name)),
        parts_encodable(field_descriptor_proto_seq_parts(2u32, v.field)),
        parts_encodable(descriptor_proto_seq_parts(3u32, v.nested_type)),
        parts_encodable(enum_descriptor_proto_seq_parts(4u32, v.enum_type)),
        parts_encodable(extension_range_seq_parts(5u32, v.extension_range)),
        parts_encodable(field_descriptor_proto_seq_parts(6u32, v.extension)),
        parts_encodable(message_options_opt_parts(7u32, v.options)),
        parts_encodable(oneof_descriptor_proto_seq_parts(8u32, v.oneof_decl)),
        parts_encodable(reserved_range_seq_parts(9u32, v.reserved_range)),
        parts_encodable(unpacked_parts::<raw::String>(10u32, v.reserved_name)),
        descriptor_proto_roundtrips(v, depth, limit),
        v.options is Some ==> d.options is None,
        parts_bytes(descriptor_proto_parts(v)) == parts_bytes(opt_field_parts::<raw::String>(1u32, v.name)) + (parts_bytes(field_descriptor_proto_seq_parts(2u32, v.field)) + (parts_bytes(descriptor_proto_seq_parts(3u32, v.nested_type)) + (parts_bytes(enum_descriptor_proto_seq_parts(4u32, v.enum_type)) + (parts_bytes(extension_range_seq_parts(5u32, v.extension_range)) + (parts_bytes(field_descriptor_proto_seq_parts(6u32, v.extension)) + (parts_bytes(message_options_opt_parts(7u32, v.options)) + (parts_bytes(oneof_descriptor_proto_seq_parts(8u32, v.oneof_decl)) + (parts_bytes(reserved_range_seq_parts(9u32, v.reserved_range)) + (parts_bytes(unpacked_parts::<raw::String>(10u32, v.reserved_name)) + parts_bytes(set_parts(v.unknown_fields))))))))))),
    ensures
        descriptor_proto_merged(d, parts_bytes(descriptor_proto_parts(v)), depth, limit, false, None) == Ok::<DescriptorProtoView, ReadError>(descriptor_proto_merge_view(d, v)),
    decreases parts_bytes(descriptor_proto_parts(v)).len(), 1nat,
{
    let p0 = opt_field_parts::<raw::String>(1u32, v.name);
    let p1 = field_descriptor_proto_seq_parts(2u32, v.field);
    let p2 = descriptor_proto_seq_parts(3u32, v.nested_type);
    let p3 = enum_descriptor_proto_seq_parts(4u32, v.enum_type);
    let p4 = extension_range_seq_parts(5u32, v.extension_range);
    let p5 = field_descriptor_proto_seq_parts(6u32, v.extension);
    let p6 = message_options_opt_parts(7u32, v.options);
    let p7 = oneof_descriptor_proto_seq_parts(8u32, v.oneof_decl);
    let p8 = reserved_range_seq_parts(9u32, v.reserved_range);
    let p9 = unpacked_parts::<raw::String>(10u32, v.reserved_name);
    let p10 = set_parts(v.unknown_fields);
    let b0 = parts_bytes(p0);
    let b1 = parts_bytes(p1);
    let b2 = parts_bytes(p2);
    let b3 = parts_bytes(p3);
    let b4 = parts_bytes(p4);
    let b5 = parts_bytes(p5);
    let b6 = parts_bytes(p6);
    let b7 = parts_bytes(p7);
    let b8 = parts_bytes(p8);
    let b9 = parts_bytes(p9);
    let b10 = parts_bytes(p10);
    let r10 = b10;
    let r9 = b9 + r10;
    let r8 = b8 + r9;
    let r7 = b7 + r8;
    let r6 = b6 + r7;
    let r5 = b5 + r6;
    let r4 = b4 + r5;
    let r3 = b3 + r4;
    let r2 = b2 + r3;
    let r1 = b1 + r2;
    let r0 = b0 + r1;
    let d0 = d;
    let d1 = DescriptorProtoView { name: newer_or(v.name, d.name), ..d0 };
    assert(descriptor_proto_merged(d0, r0, depth, limit, false, None) == descriptor_proto_merged(d1, r1, depth, limit, false, None)) by {
        lemma_descriptor_proto_read_name(d0, v.name, r1, depth, limit);
        assert((if v.name is Some { DescriptorProtoView { name: v.name, ..d0 } } else { d0 }) == d1);
    }
    let d2 = DescriptorProtoView { field: d.field + v.field, ..d1 };
    assert(descriptor_proto_merged(d1, r1, depth, limit, false, None) == descriptor_proto_merged(d2, r2, depth, limit, false, None)) by {
        lemma_descriptor_proto_read_field(d1, v.field, r2, depth, limit);
        assert(DescriptorProtoView { field: d1.field + v.field, ..d1 } == d2);
    }
    let d3 = DescriptorProtoView { nested_type: d.nested_type + v.nested_type, ..d2 };
    assert(descriptor_proto_merged(d2, r2, depth, limit, false, None) == descriptor_proto_merged(d3, r3, depth, limit, false, None)) by {
        lemma_descriptor_proto_read_nested_type(d2, v.nested_type, r3, depth, limit);
        assert(DescriptorProtoView { nested_type: d2.nested_type + v.nested_type, ..d2 } == d3);
    }
    let d4 = DescriptorProtoView { enum_type: d.enum_type + v.enum_type, ..d3 };
    assert(descriptor_proto_merged(d3, r3, depth, limit, false, None) == descriptor_proto_merged(d4, r4, depth, limit, false, None)) by {
        lemma_descriptor_proto_read_enum_type(d3, v.enum_type, r4, depth, limit);
        assert(DescriptorProtoView { enum_type: d3.enum_type + v.enum_type, ..d3 } == d4);
    }
    let d5 = DescriptorProtoView { extension_range: d.extension_range + v.extension_range, ..d4 };
    assert(descriptor_proto_merged(d4, r4, depth, limit, false, None) == descriptor_proto_merged(d5, r5, depth, limit, false, None)) by {
        lemma_descriptor_proto_read_extension_range(d4, v.extension_range, r5, depth, limit);
        assert(DescriptorProtoView { extension_range: d4.extension_range + v.extension_range, ..d4 } == d5);
    }
    let d6 = DescriptorProtoView { extension: d.extension + v.extension, ..d5 };
    assert(descriptor_proto_merged(d5, r5, depth, limit, false, None) == descriptor_proto_merged(d6, r6, depth, limit, false, None)) by {
        lemma_descriptor_proto_read_extension(d5, v.extension, r6, depth, limit);
        assert(DescriptorProtoView { extension: d5.extension + v.extension, ..d5 } == d6);
    }
    let d7 = DescriptorProtoView { options: newer_or(v.options, d.options), ..d6 };
    assert(descriptor_proto_merged(d6, r6, depth, limit, false, None) == descriptor_proto_merged(d7, r7, depth, limit, false, None)) by {
        lemma_descriptor_proto_read_options(d6, v.options, r7, depth, limit);
        assert((if v.options is Some { DescriptorProtoView { options: v.options, ..d6 } } else { d6 }) == d7);
    }
    let d8 = DescriptorProtoView { oneof_decl: d.oneof_decl + v.oneof_decl, ..d7 };
    assert(descriptor_proto_merged(d7, r7, depth, limit, false, None) == descriptor_proto_merged(d8, r8, depth, limit, false, None)) by {
        lemma_descriptor_proto_read_oneof_decl(d7, v.oneof_decl, r8, depth, limit);
        assert(DescriptorProtoView { oneof_decl: d7.oneof_decl + v.oneof_decl, ..d7 } == d8);
    }
    let d9 = DescriptorProtoView { reserved_range: d.reserved_range + v.reserved_range, ..d8 };
    assert(descriptor_proto_merged(d8, r8, depth, limit, false, None) == descriptor_proto_merged(d9, r9, depth, limit, false, None)) by {
        lemma_descriptor_proto_read_reserved_range(d8, v.reserved_range, r9, depth, limit);
        assert(DescriptorProtoView { reserved_range: d8.reserved_range + v.reserved_range, ..d8 } == d9);
    }
    let d10 = DescriptorProtoView { reserved_name: d.reserved_name + v.reserved_name, ..d9 };
    assert(descriptor_proto_merged(d9, r9, depth, limit, false, None) == descriptor_proto_merged(d10, r10, depth, limit, false, None)) by {
        lemma_unpacked_parts_encodable::<raw::String>(10u32, v.reserved_name);
        lemma_descriptor_proto_read_reserved_name(d9, v.reserved_name, r10, depth, limit);
        assert(DescriptorProtoView { reserved_name: d9.reserved_name + v.reserved_name, ..d9 } == d10);
    }
    let ps = set_pairs(v.unknown_fields);
    assert(descriptor_proto_merged(d10, r10, depth, limit, false, None) == Ok::<DescriptorProtoView, ReadError>(descriptor_proto_merge_view(d, v))) by {
        lemma_set_pairs(v.unknown_fields, d.unknown_fields);
        lemma_entries_readable(v.unknown_fields);
        assert forall|k: int| 0 <= k < ps.len() implies value_readable(#[trigger] ps[k].0, ps[k].1) && !descriptor_proto_known_tag(
            tag_value(ps[k].0, field_value_wire_type(ps[k].1)),
        ) by {
            assert(!descriptor_proto_known_tag(tag_value(set_pairs(v.unknown_fields)[k].0, field_value_wire_type(set_pairs(v.unknown_fields)[k].1))));
        }
        lemma_descriptor_proto_read_unknown(d10, ps, Seq::empty(), depth, limit);
        assert(b10 + Seq::<u8>::empty() =~= b10);
        let dl = DescriptorProtoView { unknown_fields: push_pairs(d10.unknown_fields, ps), ..d10 };
        assert(dl == descriptor_proto_merge_view(d, v));
    }
}

/// Reading the bytes of the parts of a `DescriptorProto`, field by field, gives the message back.
proof fn lemma_descriptor_proto_read_all(v: DescriptorProtoView, depth: nat, limit: nat)
    requires
        parts_encodable(opt_field_parts::<raw::String>(1u32, v.name)),
        parts_encodable(field_descriptor_proto_seq_parts(2u32, v.field)),
        parts_encodable(descriptor_proto_seq_parts(3u32, v.nested_type)),
        parts_encodable(enum_descriptor_proto_seq_parts(4u32, v.enum_type)),
        parts_encodable(extension_range_seq_parts(5u32, v.extension_range)),
        parts_encodable(field_descriptor_proto_seq_parts(6u32, v.extension)),
        parts_encodable(message_options_opt_parts(7u32, v.options)),
        parts_encodable(oneof_descriptor_proto_seq_parts(8u32, v.oneof_decl)),
        parts_encodable(reserved_range_seq_parts(9u32, v.reserved_range)),
        parts_encodable(unpacked_parts::<raw::String>(10u32, v.reserved_name)),
        descriptor_proto_roundtrips(v, depth, limit),
        parts_bytes(descriptor_proto_parts(v)) == parts_bytes(opt_field_parts::<raw::String>(1u32, v.name)) + (parts_bytes(field_descriptor_proto_seq_parts(2u32, v.field)) + (parts_bytes(descriptor_proto_seq_parts(3u32, v.nested_type)) + (parts_bytes(enum_descriptor_proto_seq_parts(4u32, v.enum_type)) + (parts_bytes(extension_range_seq_parts(5u32, v.extension_range)) + (parts_bytes(field_descriptor_proto_seq_parts(6u32, v.extension)) + (parts_bytes(message_options_opt_parts(7u32, v.options)) + (parts_bytes(oneof_descriptor_proto_seq_parts(8u32, v.oneof_decl)) + (parts_bytes(reserved_range_seq_parts(9u32, v.reserved_range)) + (parts_bytes(unpacked_parts::<raw::String>(10u32, v.reserved_name)) + parts_bytes(set_parts(v.unknown_fields))))))))))),
    ensures
        descriptor_proto_merged(descriptor_proto_default(), parts_bytes(descriptor_proto_parts(v)), depth, limit, false, None) == Ok::<DescriptorProtoView, ReadError>(v),
    decreases parts_bytes(descriptor_proto_parts(v)).len(), 2nat,
{
    lemma_descriptor_proto_merge_all(descriptor_proto_default(), v, depth, limit);
    lemma_entries_readable(v.unknown_fields);
    lemma_merge_into_empty(v.unknown_fields);
    assert(Seq::empty() + v.field =~= v.field);
    assert(Seq::empty() + v.extension =~= v.extension);
    assert(Seq::empty() + v.nested_type =~= v.nested_type);
    assert(Seq::empty() + v.enum_type =~= v.enum_type);
    assert(Seq::empty() + v.extension_range =~= v.extension_range);
    assert(Seq::empty() + v.oneof_decl =~= v.oneof_decl);
    assert(Seq::empty() + v.reserved_range =~= v.reserved_range);
    assert(Seq::empty() + v.reserved_name =~= v.reserved_name);
    assert(descriptor_proto_merge_view(descriptor_proto_default(), v) == v);
}

/// Merging what a `DescriptorProto` `v` writes into a message `d` merges `v` into `d`: each field `v`
/// holds replaces the one `d` holds, repeated values follow those `d` holds, and unknown fields
/// are added to those of `d`, where `d` holds none of the message fields `v` holds (those are
/// merged into each other), at nesting depth `depth` of a reader with recursion limit `limit`
/// that keeps unknown fields, outside any group, where `v` is read back as written.
pub proof fn lemma_descriptor_proto_merge_written(d: DescriptorProtoView, v: DescriptorProtoView, depth: nat, limit: nat)
    requires
        parts_encodable(descriptor_proto_parts(v)),
        descriptor_proto_roundtrips(v, depth, limit),
        v.options is Some ==> d.options is None,
    ensures
        descriptor_proto_merged(d, parts_bytes(descriptor_proto_parts(v)), depth, limit, false, None) == Ok::<DescriptorProtoView, ReadError>(descriptor_proto_merge_view(d, v)),
    decreases parts_bytes(descriptor_proto_parts(v)).len(), 2nat,
{
    lemma_descriptor_proto_parts_encodable(v);
    lemma_descriptor_proto_parts_bytes(v);
    lemma_descriptor_proto_merge_all(d, v, depth, limit);
}

/// A `DescriptorProto` is read back as it is written: merging the bytes of its parts into a default
/// message, at nesting depth `depth` of a reader with recursion limit `limit` that keeps
/// unknown fields, outside any group, gives the message back, where it is read back as written.
pub proof fn lemma_descriptor_proto_roundtrip(v: DescriptorProtoView, depth: nat, limit: nat)
    requires
        parts_encodable(descriptor_proto_parts(v)),
        descriptor_proto_roundtrips(v, depth, limit),
    ensures
        descriptor_proto_merged(descriptor_proto_default(), parts_bytes(descriptor_proto_parts(v)), depth, limit, false, None) == Ok::<DescriptorProtoView, ReadError>(v),
    decreases parts_bytes(descriptor_proto_parts(v)).len(), 3nat,
{
    lemma_descriptor_proto_parts_encodable(v);
    lemma_descriptor_proto_parts_bytes(v);
    lemma_descriptor_proto_read_all(v, depth, limit);
}

/// The `ExtensionRange` message of `descriptor.proto`.
#[derive(Clone, Debug)]
pub struct ExtensionRange {
    start: Option<i32>,
    end: Option<i32>,
    options: Option<ExtensionRangeOptions>,
    unknown_fields: UnknownFieldSet,
}

/// The view of a `ExtensionRange`: its fields, and its unknown fields.
pub struct ExtensionRangeView {
    /// The `start` field.
    pub start: Option<i32>,
    /// The `end` field.
    pub end: Option<i32>,
    /// The `options` field.
    pub options: Option<ExtensionRangeOptionsView>,
    /// The unknown fields.
    pub unknown_fields: Seq<(u32, Seq<FieldValue>)>,
}

/// The view of a `ExtensionRange` value.
pub closed spec fn extension_range_view(m: ExtensionRange) -> ExtensionRangeView
{
    ExtensionRangeView {
        start: m.start,
        end: m.end,
        options: match m.options { Some(x) => Some(extension_range_options_view(x)), None => None },
        unknown_fields: m.unknown_fields@,
    }
}

/// The views of a run of `ExtensionRange` values.
pub closed spec fn extension_range_seq_view(s: Seq<ExtensionRange>) -> Seq<ExtensionRangeView>
    decreases s,
{
    if s.len() == 0 {
        Seq::empty()
    } else {
        extension_range_seq_view(s.subrange(0, s.len() - 1)).push(extension_range_view(s[s.len() - 1]))
    }
}

/// The view of a `ExtensionRange` with no field set.
pub open spec fn extension_range_default() -> ExtensionRangeView {
    ExtensionRangeView {
        start: None,
        end: None,
        options: None,
        unknown_fields: Seq::empty(),
    }
}

impl View for ExtensionRange {
    type V = ExtensionRangeView;

    open spec fn view(&self) -> ExtensionRangeView {
        extension_range_view(*self)
    }
}

impl Default for ExtensionRange {
    /// A message with no field set.
    fn default() -> (r: ExtensionRange)
        ensures
            r@ == extension_range_default(),
    {
        let r = ExtensionRange {
            start: None,
            end: None,
            options: None,
            unknown_fields: UnknownFieldSet::new(),
        };
        proof {
            assert(r@ =~= extension_range_default());
        }
        r
    }
}

impl ExtensionRange {
    /// Gets the `start` field, or its default, `0`.
    pub fn start(&self) -> (r: i32)
        ensures
            r == self@.start.unwrap_or(0i32),
    {
        match self.start {
            Some(v) => v,
            None => 0i32,
        }
    }

    /// Gets the `start` field if it is set.
    pub fn start_option(&self) -> (r: Option<&i32>)
        ensures
            opt_ref_view(r) == self@.start,
    {
        self.start.as_ref()
    }

    /// Gets the `start` field for changing it, setting it to its type's default first if it
    /// is not set.
    pub fn start_mut(&mut self) -> (r: &mut i32)
        ensures
            (*r)@ == old(self)@.start.unwrap_or(0i32),
            final(self)@ == (ExtensionRangeView { start: Some((*final(r))@), ..old(self)@ }),
    {
        self.start.get_or_insert(0i32)
    }

    /// Returns whether the `start` field is set.
    pub fn has_start(&self) -> (r: bool)
        ensures
            r == self@.start is Some,
    {
        self.start.is_some()
    }

    /// Sets the `start` field.
    pub fn set_start(&mut self, value: i32)
        ensures
            final(self)@ == (ExtensionRangeView { start: Some(value@), ..old(self)@ }),
    {
        self.start = Some(value);
    }

    /// Takes the `start` field out, leaving it unset.
    pub fn take_start(&mut self) -> (r: Option<i32>)
        ensures
            opt_view(r) == old(self)@.start,
            final(self)@ == (ExtensionRangeView { start: None, ..old(self)@ }),
    {
        self.start.take()
    }

    /// Clears the `start` field, leaving it unset.
    pub fn clear_start(&mut self)
        ensures
            final(self)@ == (ExtensionRangeView { start: None, ..old(self)@ }),
    {
        self.start = None;
    }

    /// Gets the `end` field, or its default, `0`.
    pub fn end(&self) -> (r: i32)
        ensures
            r == self@.end.unwrap_or(0i32),
    {
        match self.end {
            Some(v) => v,
            None => 0i32,
        }
    }

    /// Gets the `end` field if it is set.
    pub fn end_option(&self) -> (r: Option<&i32>)
        ensures
            opt_ref_view(r) == self@.end,
    {
        self.end.as_ref()
    }

    /// Gets the `end` field for changing it, setting it to its type's default first if it
    /// is not set.
    pub fn end_mut(&mut self) -> (r: &mut i32)
        ensures
            (*r)@ == old(self)@.end.unwrap_or(0i32),
            final(self)@ == (ExtensionRangeView { end: Some((*final(r))@), ..old(self)@ }),
    {
        self.end.get_or_insert(0i32)
    }

    /// Returns whether the `end` field is set.
    pub fn has_end(&self) -> (r: bool)
        ensures
            r == self@.end is Some,
    {
        self.end.is_some()
    }

    /// Sets the `end` field.
    pub fn set_end(&mut self, value: i32)
        ensures
            final(self)@ == (ExtensionRangeView { end: Some(value@), ..old(self)@ }),
    {
        self.end = Some(value);
    }

    /// Takes the `end` field out, leaving it unset.
    pub fn take_end(&mut self) -> (r: Option<i32>)
        ensures
            opt_view(r) == old(self)@.end,
            final(self)@ == (ExtensionRangeView { end: None, ..old(self)@ }),
    {
        self.end.take()
    }

    /// Clears the `end` field, leaving it unset.
    pub fn clear_end(&mut self)
        ensures
            final(self)@ == (ExtensionRangeView { end: None, ..old(self)@ }),
    {
        self.end = None;
    }

    /// Gets the `options` field if it is set.
    pub fn options_option(&self) -> (r: Option<&ExtensionRangeOptions>)
        ensures
            opt_ref_view(r) == self@.options,
    {
        self.options.as_ref()
    }

    /// Gets the `options` field for changing it, setting it to its type's default first if it
    /// is not set.
    pub fn options_mut(&mut self) -> (r: &mut ExtensionRangeOptions)
        ensures
            (*r)@ == old(self)@.options.unwrap_or(extension_range_options_default()),
            final(self)@ == (ExtensionRangeView { options: Some((*final(r))@), ..old(self)@ }),
    {
        self.options.get_or_insert(ExtensionRangeOptions::default())
    }

    /// Returns whether the `options` field is set.
    pub fn has_options(&self) -> (r: bool)
        ensures
            r == self@.options is Some,
    {
        self.options.is_some()
    }

    /// Sets the `options` field.
    pub fn set_options(&mut self, value: ExtensionRangeOptions)
        ensures
            final(self)@ == (ExtensionRangeView { options: Some(value@), ..old(self)@ }),
    {
        self.options = Some(value);
    }

    /// Takes the `options` field out, leaving it unset.
    pub fn take_options(&mut self) -> (r: Option<ExtensionRangeOptions>)
        ensures
            opt_view(r) == old(self)@.options,
            final(self)@ == (ExtensionRangeView { options: None, ..old(self)@ }),
    {
        self.options.take()
    }

    /// Clears the `options` field, leaving it unset.
    pub fn clear_options(&mut self)
        ensures
            final(self)@ == (ExtensionRangeView { options: None, ..old(self)@ }),
    {
        self.options = None;
    }
}

/// The parts a `ExtensionRange` is written as: its fields that are set, in field number order, then its
/// unknown fields.
#[verifier::opaque]
pub open spec fn extension_range_parts(v: ExtensionRangeView) -> Seq<(bool, Seq<u8>)>
{
    opt_field_parts::<raw::Int32>(1u32, v.start) + (opt_field_parts::<raw::Int32>(2u32, v.end) + (extension_range_options_opt_parts(3u32, v.options) + (set_parts(v.unknown_fields))))
}

/// The parts the `ExtensionRange` values of a repeated field with field number `num` are written as:
/// for each, its tag, its length and its parts.
pub open spec fn extension_range_seq_parts(num: u32, ys: Seq<ExtensionRangeView>) -> Seq<(bool, Seq<u8>)>
    decreases ys,
{
    if ys.len() == 0 {
        Seq::empty()
    } else {
        extension_range_seq_parts(num, ys.subrange(0, ys.len() - 1)) + entry_parts(num, extension_range_parts(ys[ys.len() - 1]))
    }
}

/// What reading the field with tag value `t` from the front of `rest` into `v` gives: the
/// number of bytes read and the message after, or the error.
pub open spec fn extension_range_field_read(v: ExtensionRangeView, t: u32, rest: Seq<u8>, depth: nat, limit: nat, skip: bool, eg: Option<Tag>) -> ReadResult<(int, ExtensionRangeView)>
{
    if t == 8u32 {
        match <raw::Int32 as Value>::decoding(rest) { Ok((m, x)) => Ok((m, ExtensionRangeView { start: Some(x), ..v })), Err(e) => Err(e) }
    } else if t == 16u32 {
        match <raw::Int32 as Value>::decoding(rest) { Ok((m, x)) => Ok((m, ExtensionRangeView { end: Some(x), ..v })), Err(e) => Err(e) }
    } else if t == 26u32 {
        match length_delimited_read(rest) { Err(e) => Err(e), Ok((m, b)) => if depth >= limit { Err(ReadError::RecursionLimitExceeded) } else { match extension_range_options_merged(match v.options { Some(y) => y, None => extension_range_options_default() }, b, depth + 1, limit, skip, eg) { Ok(y) => Ok((m, ExtensionRangeView { options: Some(y), ..v })), Err(e) => Err(e) } } }
    } else {
        match unknown_field_read(v.unknown_fields, t, rest, depth, limit, skip, eg) {
            Ok((m, u)) => Ok((m, ExtensionRangeView { unknown_fields: u, ..v })),
            Err(e) => Err(e),
        }
    }
}

/// What reading all of `s` into `v` as `ExtensionRange` fields gives: the message after, or the error.
/// `depth` and `limit` are the reader's depth and recursion limit, `skip` whether it skips
/// unknown fields, and `eg` the end tag of the group it is in.
pub open spec fn extension_range_merged(v: ExtensionRangeView, s: Seq<u8>, depth: nat, limit: nat, skip: bool, eg: Option<Tag>) -> ReadResult<ExtensionRangeView>
    decreases s.len(),
{
    if s.len() == 0 {
        Ok(v)
    } else {
        match varint_read(s) {
            Err(e) => Err(e),
            Ok((n, w)) => if n < 1 || n > s.len() {
                Err(eof())
            } else {
                match extension_range_field_read(v, w as u32, s.skip(n), depth, limit, skip, eg) {
                    Err(e) => Err(e),
                    Ok((m, v2)) => if m < 0 || n + m > s.len() {
                        Err(eof())
                    } else {
                        extension_range_merged(v2, s.skip(n + m), depth, limit, skip, eg)
                    },
                }
            },
        }
    }
}

/// The views of a run of `ExtensionRange` values, value by value.
pub proof fn lemma_extension_range_seq_view(s: Seq<ExtensionRange>)
    ensures
        extension_range_seq_view(s).len() == s.len(),
        forall|i: int| 0 <= i < s.len() ==> #[trigger] extension_range_seq_view(s)[i] == extension_range_view(s[i]),
    decreases s.len(),
{
    if s.len() > 0 {
        lemma_extension_range_seq_view(s.subrange(0, s.len() - 1));
        assert forall|i: int| 0 <= i < s.len() implies #[trigger] extension_range_seq_view(s)[i] == extension_range_view(s[i]) by {
            if i < s.len() - 1 {
                assert(s.subrange(0, s.len() - 1)[i] == s[i]);
            }
        }
    }
}

/// The parts of two runs of `ExtensionRange` values are those of the first, then the second.
proof fn lemma_extension_range_seq_parts_append(num: u32, a: Seq<ExtensionRangeView>, b: Seq<ExtensionRangeView>)
    ensures
        extension_range_seq_parts(num, a + b) == extension_range_seq_parts(num, a) + extension_range_seq_parts(num, b),
    decreases b.len(),
{
    if b.len() == 0 {
        assert(a + b =~= a);
        assert(extension_range_seq_parts(num, a) + extension_range_seq_parts(num, b) =~= extension_range_seq_parts(num, a));
    } else {
        let ab = a + b;
        assert(ab.subrange(0, ab.len() - 1) =~= a + b.subrange(0, b.len() - 1));
        assert(ab[ab.len() - 1] == b[b.len() - 1]);
        lemma_extension_range_seq_parts_append(num, a, b.subrange(0, b.len() - 1));
        assert(extension_range_seq_parts(num, a + b) =~= extension_range_seq_parts(num, a) + extension_range_seq_parts(num, b));
    }
}

/// The parts of the first `i + 1` values of a run are those of the first `i`, then the entry
/// of value `i`; and those of the whole run are those of the first `i + 1`, then the rest.
proof fn lemma_extension_range_seq_parts_step(num: u32, ys: Seq<ExtensionRangeView>, i: int)
    requires
        0 <= i < ys.len(),
    ensures
        extension_range_seq_parts(num, ys.take(i + 1)) == extension_range_seq_parts(num, ys.take(i)) + entry_parts(num, extension_range_parts(ys[i])),
        extension_range_seq_parts(num, ys) == extension_range_seq_parts(num, ys.take(i + 1)) + extension_range_seq_parts(num, ys.skip(i + 1)),
{
    assert(ys.take(i + 1).subrange(0, i) =~= ys.take(i));
    assert(ys.take(i + 1)[i] == ys[i]);
    lemma_extension_range_seq_parts_append(num, ys.take(i + 1), ys.skip(i + 1));
    assert(ys.take(i + 1) + ys.skip(i + 1) =~= ys);
}

/// The parts of `ExtensionRange` values are those of the first value's entry, then those of the others.
proof fn lemma_extension_range_seq_parts_front(num: u32, ys: Seq<ExtensionRangeView>)
    requires
        ys.len() > 0,
    ensures
        extension_range_seq_parts(num, ys) == entry_parts(num, extension_range_parts(ys[0])) + extension_range_seq_parts(num, ys.drop_first()),
{
    let one = seq![ys[0]];
    lemma_extension_range_seq_parts_append(num, one, ys.drop_first());
    assert(one + ys.drop_first() =~= ys);
    assert(one.subrange(0, 0) =~= Seq::<ExtensionRangeView>::empty());
    assert(extension_range_seq_parts(num, Seq::<ExtensionRangeView>::empty()) =~= Seq::<(bool, Seq<u8>)>::empty());
    assert(one[0] == ys[0]);
    assert(extension_range_seq_parts(num, one) =~= entry_parts(num, extension_range_parts(ys[0])));
}

/// Adds the size of the `ExtensionRange` values of a repeated field with field number `num`.
fn extension_range_values_size(vs: &Vec<ExtensionRange>, builder: LengthBuilder, num: FieldNumber) -> (r: Option<LengthBuilder>)
    ensures
        size_added(builder@ as int, parts_encodable(extension_range_seq_parts(num@, extension_range_seq_view(vs@))), parts_bytes(extension_range_seq_parts(num@, extension_range_seq_view(vs@))).len() as int, r),
{
    let ghost ys = extension_range_seq_view(vs@);
    proof {
        lemma_extension_range_seq_view(vs@);
        assert(ys.take(0) =~= Seq::<ExtensionRangeView>::empty());
    }
    let mut b = builder;
    let mut i: usize = 0;
    while i < vs.len()
        invariant
            ys == extension_range_seq_view(vs@),
            ys.len() == vs@.len(),
            forall|k: int| 0 <= k < vs@.len() ==> #[trigger] ys[k] == extension_range_view(vs@[k]),
            i <= vs@.len(),
            size_added(builder@ as int, parts_encodable(extension_range_seq_parts(num@, ys.take(i as int))), parts_bytes(extension_range_seq_parts(num@, ys.take(i as int))).len() as int, Some(b)),
        decreases vs@.len() - i,
    {
        let ghost y = ys[i as int];
        let ghost done = extension_range_seq_parts(num@, ys.take(i as int));
        let ghost cur = entry_parts(num@, extension_range_parts(y));
        let ghost rest = extension_range_seq_parts(num@, ys.skip(i + 1));
        proof {
            lemma_extension_range_seq_parts_step(num@, ys, i as int);
        }
        let len = vs[i].calculate_size();
        let r = add_entry_size(b, num, len, Ghost(extension_range_parts(y)));
        proof {
            lemma_size_chain(builder@ as int, done, cur, Some(b), r);
        }
        b = match r {
            Some(b1) => b1,
            None => {
                proof {
                    lemma_size_prefix(builder@ as int, done + cur, rest);
                }
                return None;
            },
        };
        i = i + 1;
    }
    proof {
        assert(ys.take(i as int) =~= ys);
    }
    Some(b)
}

/// Writes the `ExtensionRange` values of a repeated field with field number `num`: for each, its tag,
/// its length and its fields.
fn write_extension_range_values(vs: &Vec<ExtensionRange>, output: &mut CodedWriter, num: FieldNumber) -> (r: WriteResult)
    ensures
        (final(output).written(), r) == parts_written(old(output).written(), old(output).capacity(), extension_range_seq_parts(num@, extension_range_seq_view(vs@))),
        final(output).capacity() == old(output).capacity(),
        (*final(final(output).target()))@ == (*final(old(output).target()))@,
{
    let ghost ys = extension_range_seq_view(vs@);
    let ghost start = output.written();
    let ghost cap = output.capacity();
    proof {
        lemma_extension_range_seq_view(vs@);
        assert(ys.take(0) =~= Seq::<ExtensionRangeView>::empty());
    }
    let mut i: usize = 0;
    while i < vs.len()
        invariant
            ys == extension_range_seq_view(vs@),
            ys.len() == vs@.len(),
            forall|k: int| 0 <= k < vs@.len() ==> #[trigger] ys[k] == extension_range_view(vs@[k]),
            i <= vs@.len(),
            start == old(output).written(),
            cap == old(output).capacity(),
            output.capacity() == cap,
            (*final(output.target()))@ == (*final(old(output).target()))@,
            parts_written(start, cap, extension_range_seq_parts(num@, ys.take(i as int))).0 == output.written(),
            parts_written(start, cap, extension_range_seq_parts(num@, ys.take(i as int))).1 is Ok,
        decreases vs@.len() - i,
    {
        let ghost y = ys[i as int];
        let ghost done = extension_range_seq_parts(num@, ys.take(i as int));
        let ghost head = entry_head(num@, extension_range_parts(y));
        let ghost cur = head + extension_range_parts(y);
        let ghost rest = extension_range_seq_parts(num@, ys.skip(i + 1));
        let ghost w0 = output.written();
        proof {
            lemma_extension_range_seq_parts_step(num@, ys, i as int);
            lemma_parts_written_append(start, cap, done, cur);
            lemma_parts_written_append(start, cap, done + cur, rest);
            lemma_parts_written_append(w0, cap, head, extension_range_parts(y));
            reveal_with_fuel(parts_written, 3);
            assert(head.drop_first().drop_first() =~= Seq::<(bool, Seq<u8>)>::empty());
        }
        match output.write_tag(Tag::new(num, WireType::LengthDelimited)) {
            Ok(()) => {},
            Err(e) => return Err(e),
        }
        let len = match vs[i].calculate_size() {
            Some(len) => len,
            None => return Err(WriteError::ValueTooLarge),
        };
        match output.write_length(len) {
            Ok(()) => {},
            Err(e) => return Err(e),
        }
        match vs[i].write_to(output) {
            Ok(()) => {},
            Err(e) => return Err(e),
        }
        i = i + 1;
    }
    proof {
        assert(ys.take(i as int) =~= ys);
        lemma_ok_unit(parts_written(start, cap, extension_range_seq_parts(num@, ys)).1);
    }
    Ok(())
}

/// Reads a `ExtensionRange` from the reader as a length delimited value, merging it into `this`, one
/// level deeper.
fn merge_extension_range_delimited(this: &mut ExtensionRange, input: &mut CodedReader) -> (r: ReadResult<()>)
    ensures
        match length_delimited_read(old(input).available()) {
            Err(e) => r == Err::<(), ReadError>(e) && same_config(*old(input), *final(input)),
            Ok((m, b)) => if old(input).depth() >= old(input).recursion_limit() {
                r == Err::<(), ReadError>(ReadError::RecursionLimitExceeded) && same_config(*old(input), *final(input))
            } else {
                match extension_range_merged(old(this)@, b, old(input).depth() + 1, old(input).recursion_limit(), skips(*old(input)), old(input).end_group_view()) {
                    Ok(y) => r is Ok && final(this)@ == y && final(input).position() == old(input).position() + m
                        && same_state(*old(input), *final(input)),
                    Err(e) => r == Err::<(), ReadError>(e) && same_config(*old(input), *final(input)),
                }
            },
        },
{
    let rem0 = input.remaining();
    let ghost s = input.available();
    let ghost start = *input;
    let length = match input.read_length() {
        Ok(l) => l,
        Err(e) => return Err(e),
    };
    let rem1 = input.remaining();
    let ghost n0 = input.position() - start.position();
    proof {
        lemma_varint_read_len(s);
        assert(input.available() =~= s.skip(n0));
    }
    let previous = match input.push_length(length) {
        Ok(p) => p,
        Err(e) => return Err(e),
    };
    let rem2 = input.remaining();
    let ghost b = s.subrange(n0, n0 + length@);
    proof {
        assert(input.available() =~= b);
        assert(length_delimited_read(s) == Ok::<(int, Seq<u8>), ReadError>((n0 + length@, b)));
    }
    let ghost pushed = *input;
    match input.increment_recursion_count() {
        Ok(()) => {},
        Err(e) => {
            input.pop_length(previous);
            return Err(e);
        },
    }
    let r = this.merge_from(input);
    let rem3 = input.remaining();
    input.decrement_recursion_count();
    input.pop_length(previous);
    r
}

impl ExtensionRange {
    /// Gets the unknown fields of the message.
    pub fn unknown_fields(&self) -> (r: &UnknownFieldSet)
        ensures
            r@ == self@.unknown_fields,
    {
        &self.unknown_fields
    }

    /// Gets the unknown fields of the message for changing them.
    pub fn unknown_fields_mut(&mut self) -> (r: &mut UnknownFieldSet)
        ensures
            (*r)@ == old(self)@.unknown_fields,
            final(self)@ == (ExtensionRangeView { unknown_fields: (*final(r))@, ..old(self)@ }),
    {
        &mut self.unknown_fields
    }

    /// Returns whether the message is initialized: whether all its required fields are set.
    pub fn is_initialized(&self) -> (r: bool)
        ensures
            r,
    {
        true
    }

    /// Calculates the size of the message as it is written: `None` if a part cannot be
    /// written or the size does not fit in a length.
    #[verifier::spinoff_prover]
    pub fn calculate_size(&self) -> (r: Option<Length>)
        ensures
            opt_length(r) == parts_size(extension_range_parts(self@)),
    {
        let ghost v = self@;
        let ghost all = extension_range_parts(v);
        let b0 = LengthBuilder::new();
        let ghost d0 = Seq::<(bool, Seq<u8>)>::empty();
        proof {
            reveal(extension_range_parts);
            assert(all =~= d0 + all);
        }
        let ghost p1 = opt_field_parts::<raw::Int32>(1u32, v.start);
        let ghost rest1 = opt_field_parts::<raw::Int32>(2u32, v.end) + (extension_range_options_opt_parts(3u32, v.options) + (set_parts(v.unknown_fields)));
        proof {
            assert(self@.start == opt_inner_view::<raw::Int32>(self.start));
            assert(all == d0 + (p1 + rest1));
            assert(d0 + (p1 + rest1) =~= d0 + p1 + rest1);
        }
        let r1 = add_opt_field::<raw::Int32>(b0, FieldNumber::new_unchecked(1), &self.start);
        proof {
            lemma_size_chain(0, d0, p1, Some(b0), r1);
            if r1 is None {
                lemma_size_chain(0, d0 + p1, rest1, r1, r1);
            }
        }
        let b1 = match r1 {
            Some(b) => b,
            None => return None,
        };
        let ghost d1 = d0 + p1;
        let ghost p2 = opt_field_parts::<raw::Int32>(2u32, v.end);
        let ghost rest2 = extension_range_options_opt_parts(3u32, v.options) + (set_parts(v.unknown_fields));
        proof {
            assert(self@.end == opt_inner_view::<raw::Int32>(self.end));
            assert(all == d1 + (p2 + rest2));
            assert(d1 + (p2 + rest2) =~= d1 + p2 + rest2);
        }
        let r2 = add_opt_field::<raw::Int32>(b1, FieldNumber::new_unchecked(2), &self.end);
        proof {
            lemma_size_chain(0, d1, p2, Some(b1), r2);
            if r2 is None {
                lemma_size_chain(0, d1 + p2, rest2, r2, r2);
            }
        }
        let b2 = match r2 {
            Some(b) => b,
            None => return None,
        };
        let ghost d2 = d1 + p2;
        let ghost p3 = extension_range_options_opt_parts(3u32, v.options);
        let ghost rest3 = set_parts(v.unknown_fields);
        proof {
            assert(self@.options == opt_view(self.options));
            assert(all == d2 + (p3 + rest3));
            assert(d2 + (p3 + rest3) =~= d2 + p3 + rest3);
        }
        let r3 = extension_range_options_opt_size(&self.options, b2, FieldNumber::new_unchecked(3));
        proof {
            lemma_size_chain(0, d2, p3, Some(b2), r3);
            if r3 is None {
                lemma_size_chain(0, d2 + p3, rest3, r3, r3);
            }
        }
        let b3 = match r3 {
            Some(b) => b,
            None => return None,
        };
        let ghost d3 = d2 + p3;
        let ghost p4 = set_parts(v.unknown_fields);
        let ghost rest4 = Seq::<(bool, Seq<u8>)>::empty();
        proof {
            assert(all == d3 + p4);
            assert(p4 + rest4 =~= p4);
            assert(d3 + (p4 + rest4) =~= d3 + p4 + rest4);
        }
        let r4 = self.unknown_fields.calculate_size(b3);
        proof {
            lemma_size_chain(0, d3, p4, Some(b3), r4);
            if r4 is None {
                lemma_size_chain(0, d3 + p4, rest4, r4, r4);
            }
        }
        let b4 = match r4 {
            Some(b) => b,
            None => return None,
        };
        let ghost d4 = d3 + p4;
        Some(b4.build())
    }

    /// Writes the message to the writer: its fields that are set, in field number order, then
    /// its unknown fields.
    #[verifier::spinoff_prover]
    pub fn write_to(&self, output: &mut CodedWriter) -> (r: WriteResult)
        ensures
            (final(output).written(), r) == parts_written(old(output).written(), old(output).capacity(), extension_range_parts(self@)),
            final(output).capacity() == old(output).capacity(),
            (*final(final(output).target()))@ == (*final(old(output).target()))@,
    {
        let ghost v = self@;
        let ghost all = extension_range_parts(v);
        let ghost start = output.written();
        let ghost cap = output.capacity();
        let ghost d0 = Seq::<(bool, Seq<u8>)>::empty();
        proof {
            reveal(extension_range_parts);
            assert(all =~= d0 + all);
        }
        let ghost p1 = opt_field_parts::<raw::Int32>(1u32, v.start);
        let ghost rest1 = opt_field_parts::<raw::Int32>(2u32, v.end) + (extension_range_options_opt_parts(3u32, v.options) + (set_parts(v.unknown_fields)));
        proof {
            assert(self@.start == opt_inner_view::<raw::Int32>(self.start));
            assert(all == d0 + (p1 + rest1));
            assert(d0 + (p1 + rest1) =~= d0 + p1 + rest1);
            lemma_parts_written_append(start, cap, d0, p1);
            lemma_parts_written_append(start, cap, d0 + p1, rest1);
        }
        match write_opt_field::<raw::Int32>(output, FieldNumber::new_unchecked(1), &self.start) {
            Ok(()) => {},
            Err(e) => return Err(e),
        }
        let ghost d1 = d0 + p1;
        let ghost p2 = opt_field_parts::<raw::Int32>(2u32, v.end);
        let ghost rest2 = extension_range_options_opt_parts(3u32, v.options) + (set_parts(v.unknown_fields));
        proof {
            assert(self@.end == opt_inner_view::<raw::Int32>(self.end));
            assert(all == d1 + (p2 + rest2));
            assert(d1 + (p2 + rest2) =~= d1 + p2 + rest2);
            lemma_parts_written_append(start, cap, d1, p2);
            lemma_parts_written_append(start, cap, d1 + p2, rest2);
        }
        match write_opt_field::<raw::Int32>(output, FieldNumber::new_unchecked(2), &self.end) {
            Ok(()) => {},
            Err(e) => return Err(e),
        }
        let ghost d2 = d1 + p2;
        let ghost p3 = extension_range_options_opt_parts(3u32, v.options);
        let ghost rest3 = set_parts(v.unknown_fields);
        proof {
            assert(self@.options == opt_view(self.options));
            assert(all == d2 + (p3 + rest3));
            assert(d2 + (p3 + rest3) =~= d2 + p3 + rest3);
            lemma_parts_written_append(start, cap, d2, p3);
            lemma_parts_written_append(start, cap, d2 + p3, rest3);
        }
        match write_extension_range_options_opt(&self.options, output, FieldNumber::new_unchecked(3)) {
            Ok(()) => {},
            Err(e) => return Err(e),
        }
        let ghost d3 = d2 + p3;
        let ghost p4 = set_parts(v.unknown_fields);
        let ghost rest4 = Seq::<(bool, Seq<u8>)>::empty();
        proof {
            assert(all == d3 + p4);
            assert(p4 + rest4 =~= p4);
            assert(d3 + (p4 + rest4) =~= d3 + p4 + rest4);
            lemma_parts_written_append(start, cap, d3, p4);
            lemma_parts_written_append(start, cap, d3 + p4, rest4);
        }
        match self.unknown_fields.write_to(output) {
            Ok(()) => {},
            Err(e) => return Err(e),
        }
        let ghost d4 = d3 + p4;
        proof {
            assert(all =~= d4 + Seq::<(bool, Seq<u8>)>::empty());
            assert(all == d4);
            lemma_ok_unit(parts_written(start, cap, all).1);
        }
        Ok(())
    }

    /// Reads the value of the field whose tag value `t` was just read into the message.
    #[verifier::spinoff_prover]
    fn merge_field(&mut self, t: u32, input: &mut CodedReader) -> (r: ReadResult<()>)
        ensures
            match extension_range_field_read(old(self)@, t, old(input).available(), old(input).depth(), old(input).recursion_limit(), skips(*old(input)), old(input).end_group_view()) {
                Ok((m, v2)) => r is Ok && final(self)@ == v2 && m >= 0 && final(input).position()
                    == old(input).position() + m && same_state(*old(input), *final(input)),
                Err(e) => r == Err::<(), ReadError>(e) && same_config(*old(input), *final(input)),
            },
    {
        let rem0 = input.remaining();
        let ghost rest = input.available();
        if t == 8u32 {
            proof {
                <raw::Int32 as Value>::lemma_decoding_len(rest);
            }
            input.set_last_tag(Some(Tag::new(FieldNumber::new_unchecked(1), WireType::Varint)));
            match <raw::Int32 as Value>::merge_from(self.start.get_or_insert(0i32), input) {
                Ok(()) => {},
                Err(e) => return Err(e),
            }
        } else if t == 16u32 {
            proof {
                <raw::Int32 as Value>::lemma_decoding_len(rest);
            }
            input.set_last_tag(Some(Tag::new(FieldNumber::new_unchecked(2), WireType::Varint)));
            match <raw::Int32 as Value>::merge_from(self.end.get_or_insert(0i32), input) {
                Ok(()) => {},
                Err(e) => return Err(e),
            }
        } else if t == 26u32 {
            proof {
                lemma_length_delimited_read_len(rest);
            }
            input.set_last_tag(Some(Tag::new(FieldNumber::new_unchecked(3), WireType::LengthDelimited)));
            match &mut self.options {
                Some(y) => match merge_extension_range_options_delimited(y, input) {
                    Ok(()) => {},
                    Err(e) => return Err(e),
                },
                None => {
                    let mut y = ExtensionRangeOptions::default();
                    match merge_extension_range_options_delimited(&mut y, input) {
                        Ok(()) => {},
                        Err(e) => return Err(e),
                    }
                    self.options = Some(y);
                },
            }
        } else {
            let tag = match Tag::try_from(t) {
                Ok(tag) => tag,
                Err(_) => return Err(ReadError::InvalidTag(t)),
            };
            input.set_last_tag(Some(tag));
            match self.unknown_fields.try_add_field_from(input) {
                Ok(TryRead::Consumed) => {},
                Ok(TryRead::Yielded) => match input.skip() {
                    Ok(()) => {},
                    Err(e) => return Err(e),
                },
                Err(e) => return Err(e),
            }
        }
        let rem1 = input.remaining();
        Ok(())
    }

    /// Merges the message with fields read from the reader, up to its limit. Scalar fields
    /// read replace those set, message fields are merged, repeated fields are added to,
    /// and unknown fields are stored or skipped as the reader says. On an error the message
    /// may hold some of the fields read before it.
    #[verifier::spinoff_prover]
    #[verifier::rlimit(50)]
    pub fn merge_from(&mut self, input: &mut CodedReader) -> (r: ReadResult<()>)
        ensures
            merge_outcome(extension_range_merged(old(self)@, old(input).available(), old(input).depth(), old(input).recursion_limit(), skips(*old(input)), old(input).end_group_view()), final(self)@, *old(input), *final(input), r),
    {
        let rem0 = input.remaining();
        let ghost start = *input;
        let ghost total = extension_range_merged(self@, input.available(), input.depth(), input.recursion_limit(), skips(*input), input.end_group_view());
        loop
            invariant
                start == *old(input),
                same_state(start, *input),
                0 <= start.position() <= input.position(),
                input.limit_end() <= input.input().len(),
                total == extension_range_merged(old(self)@, start.available(), start.depth(), start.recursion_limit(), skips(start), start.end_group_view()),
                total == extension_range_merged(self@, input.available(), start.depth(), start.recursion_limit(), skips(start), start.end_group_view()),
            decreases input.available().len(),
        {
            let ghost s = input.available();
            let ghost before = *input;
            let ghost v = self@;
            let t = match input.read_field() {
                Ok(Some(t)) => t,
                Ok(None) => return Ok(()),
                Err(e) => return Err(e),
            };
            let rem1 = input.remaining();
            let ghost n = input.position() - before.position();
            proof {
                lemma_varint_read_len(s);
                assert(input.available() =~= s.skip(n));
            }
            let ghost mid = *input;
            match self.merge_field(t, input) {
                Ok(()) => {},
                Err(e) => return Err(e),
            }
            let rem2 = input.remaining();
            proof {
                let m = input.position() - mid.position();
                assert(input.available() =~= s.skip(n + m));
            }
        }
    }
}

impl crate::Message for ExtensionRange {
    open spec fn merged(v: ExtensionRangeView, s: Seq<u8>, depth: nat, limit: nat, skip: bool, eg: Option<Tag>) -> ReadResult<ExtensionRangeView> {
        extension_range_merged(v, s, depth, limit, skip, eg)
    }

    open spec fn parts(v: ExtensionRangeView) -> Seq<(bool, Seq<u8>)> {
        extension_range_parts(v)
    }

    open spec fn initialized(v: ExtensionRangeView) -> bool {
        true
    }

    open spec fn unknown_fields_of(v: ExtensionRangeView) -> Seq<(u32, Seq<FieldValue>)> {
        v.unknown_fields
    }

    open spec fn with_unknown_fields(v: ExtensionRangeView, u: Seq<(u32, Seq<FieldValue>)>) -> ExtensionRangeView {
        ExtensionRangeView { unknown_fields: u, ..v }
    }

    fn merge_from(&mut self, input: &mut CodedReader) -> (r: ReadResult<()>) {
        ExtensionRange::merge_from(self, input)
    }

    fn calculate_size(&self) -> (r: Option<Length>) {
        ExtensionRange::calculate_size(self)
    }

    fn write_to(&self, output: &mut CodedWriter) -> (r: WriteResult) {
        ExtensionRange::write_to(self, output)
    }

    fn is_initialized(&self) -> (r: bool) {
        ExtensionRange::is_initialized(self)
    }

    fn unknown_fields(&self) -> (r: &UnknownFieldSet) {
        ExtensionRange::unknown_fields(self)
    }

    fn unknown_fields_mut(&mut self) -> (r: &mut UnknownFieldSet) {
        ExtensionRange::unknown_fields_mut(self)
    }
}

impl DebugMessage for ExtensionRange {
    open spec fn spec_full_name() -> Seq<char> {
        "google.protobuf.DescriptorProto.ExtensionRange"@
    }

    open spec fn spec_name() -> Seq<char> {
        "ExtensionRange"@
    }

    fn full_name() -> (r: &'static str) {
        "google.protobuf.DescriptorProto.ExtensionRange"
    }

    fn name() -> (r: &'static str) {
        "ExtensionRange"
    }
}

/// Whether `t` is the tag of a field a `ExtensionRange` reads.
pub open spec fn extension_range_known_tag(t: u32) -> bool {
    t == 8u32 || t == 16u32 || t == 26u32
}

/// Whether a `ExtensionRange` is read back as it is written, at nesting depth `depth` of a reader with
/// recursion limit `limit`: its messages are read back as written one level deeper, within
/// the limit; and its unknown fields are read back as written, none with the tag of one of
/// its fields.
pub open spec fn extension_range_roundtrips(v: ExtensionRangeView, depth: nat, limit: nat) -> bool
{
    &&& (v.options matches Some(y) ==> depth < limit && extension_range_options_roundtrips(y, depth + 1, limit))
    &&& set_readable(v.unknown_fields)
    &&& forall|k: int| 0 <= k < set_pairs(v.unknown_fields).len() ==> !extension_range_known_tag(tag_value(
        #[trigger] set_pairs(v.unknown_fields)[k].0,
        field_value_wire_type(set_pairs(v.unknown_fields)[k].1),
    ))
}

/// Reading a `ExtensionRange` field whose tag is read from the front of `s` and whose value is read after
/// it continues with the rest of `s`.
proof fn lemma_extension_range_step(v: ExtensionRangeView, s: Seq<u8>, k: int, t: u32, m: int, v2: ExtensionRangeView, depth: nat, limit: nat)
    requires
        varint_read(s) == Ok::<(int, u64), ReadError>((k, t as u64)),
        1 <= k <= s.len(),
        extension_range_field_read(v, t, s.skip(k), depth, limit, false, None) == Ok::<(int, ExtensionRangeView), ReadError>((m, v2)),
        0 <= m,
        k + m <= s.len(),
    ensures
        extension_range_merged(v, s, depth, limit, false, None) == extension_range_merged(v2, s.skip(k + m), depth, limit, false, None),
{
    assert((t as u64) as u32 == t);
}

/// Reading the field `start` of a `ExtensionRange` written from `o` sets it to `o`, whatever it held; nothing
/// is written, and nothing changes, for `None`.
proof fn lemma_extension_range_read_start(d: ExtensionRangeView, o: Option<i32>, rest: Seq<u8>, depth: nat, limit: nat)
    requires
        parts_encodable(opt_field_parts::<raw::Int32>(1u32, o)),
    ensures
        extension_range_merged(d, parts_bytes(opt_field_parts::<raw::Int32>(1u32, o)) + rest, depth, limit, false, None) == extension_range_merged(if o is Some { ExtensionRangeView { start: o, ..d } } else { d }, rest, depth, limit, false, None),
{
    match o {
        None => {
            assert(parts_bytes(opt_field_parts::<raw::Int32>(1u32, o)) + rest =~= rest);
        },
        Some(x) => {
            let p = field_parts::<raw::Int32>(1u32, x);
            assert(p[1].0);
            let s = parts_bytes(p) + rest;
            lemma_field_bytes_read::<raw::Int32>(1u32, x, rest);
            lemma_tag_value(1u32, WireType::Varint);
            let hl = parts_bytes(p).len() as int;
            let k = varint_len(8u64) as int;
            let v2 = ExtensionRangeView { start: Some(x), ..d };
            lemma_extension_range_step(d, s, k, 8u32, hl - k, v2, depth, limit);
        },
    }
}

/// Reading the field `end` of a `ExtensionRange` written from `o` sets it to `o`, whatever it held; nothing
/// is written, and nothing changes, for `None`.
proof fn lemma_extension_range_read_end(d: ExtensionRangeView, o: Option<i32>, rest: Seq<u8>, depth: nat, limit: nat)
    requires
        parts_encodable(opt_field_parts::<raw::Int32>(2u32, o)),
    ensures
        extension_range_merged(d, parts_bytes(opt_field_parts::<raw::Int32>(2u32, o)) + rest, depth, limit, false, None) == extension_range_merged(if o is Some { ExtensionRangeView { end: o, ..d } } else { d }, rest, depth, limit, false, None),
{
    match o {
        None => {
            assert(parts_bytes(opt_field_parts::<raw::Int32>(2u32, o)) + rest =~= rest);
        },
        Some(x) => {
            let p = field_parts::<raw::Int32>(2u32, x);
            assert(p[1].0);
            let s = parts_bytes(p) + rest;
            lemma_field_bytes_read::<raw::Int32>(2u32, x, rest);
            lemma_tag_value(2u32, WireType::Varint);
            let hl = parts_bytes(p).len() as int;
            let k = varint_len(16u64) as int;
            let v2 = ExtensionRangeView { end: Some(x), ..d };
            lemma_extension_range_step(d, s, k, 16u32, hl - k, v2, depth, limit);
        },
    }
}

/// Reading the field `options` of a `ExtensionRange` written from `o`, where the message does not hold it,
/// sets it to `o`; nothing is written, and nothing changes, for `None`.
#[verifier::rlimit(40)]
proof fn lemma_extension_range_read_options(d: ExtensionRangeView, o: Option<ExtensionRangeOptionsView>, rest: Seq<u8>, depth: nat, limit: nat)
    requires
        o is Some ==> d.options is None,
        parts_encodable(extension_range_options_opt_parts(3u32, o)),
        o matches Some(y) ==> depth < limit && extension_range_options_roundtrips(y, depth + 1, limit),
    ensures
        extension_range_merged(d, parts_bytes(extension_range_options_opt_parts(3u32, o)) + rest, depth, limit, false, None) == extension_range_merged(if o is Some { ExtensionRangeView { options: o, ..d } } else { d }, rest, depth, limit, false, None),
{
    match o {
        None => {
            assert(parts_bytes(extension_range_options_opt_parts(3u32, o)) + rest =~= rest);
        },
        Some(y) => {
            let ep = entry_parts(3u32, extension_range_options_parts(y));
            assert(ep[1].0);
            let s = parts_bytes(ep) + rest;
            lemma_entry_bytes_read(3u32, extension_range_options_parts(y), rest);
            lemma_tag_value(3u32, WireType::LengthDelimited);
            lemma_parts_encodable_two(entry_head(3u32, extension_range_options_parts(y)), extension_range_options_parts(y));
            lemma_extension_range_options_roundtrip(y, depth + 1, limit);
            let hl = parts_bytes(ep).len() as int;
            let k = varint_len(26u64) as int;
            let v2 = ExtensionRangeView { options: Some(y), ..d };
            lemma_extension_range_step(d, s, k, 26u32, hl - k, v2, depth, limit);
            assert(s.skip(hl) == rest);
        },
    }
}

/// Reading the field `options` of a `ExtensionRange` merges what is read into the value the message already
/// holds there (or into a default value, where it holds none): the field read from the bytes
/// written from `y` becomes the existing value with the bytes of `y` merged into it, and the
/// rest is read into the message so changed. Past the recursion limit the read is refused.
#[verifier::rlimit(40)]
pub proof fn lemma_extension_range_merge_options(d: ExtensionRangeView, y: ExtensionRangeOptionsView, rest: Seq<u8>, depth: nat, limit: nat)
    requires
        parts_encodable(extension_range_options_opt_parts(3u32, Some(y))),
    ensures
        extension_range_merged(d, parts_bytes(extension_range_options_opt_parts(3u32, Some(y))) + rest, depth, limit, false, None) == if depth >= limit {
            Err::<ExtensionRangeView, ReadError>(ReadError::RecursionLimitExceeded)
        } else {
            match extension_range_options_merged(match d.options { Some(o) => o, None => extension_range_options_default() }, parts_bytes(extension_range_options_parts(y)), depth + 1, limit, false, None) {
                Ok(z) => extension_range_merged(ExtensionRangeView { options: Some(z), ..d }, rest, depth, limit, false, None),
                Err(e) => Err(e),
            }
        },
{
    let ep = entry_parts(3u32, extension_range_options_parts(y));
    assert(extension_range_options_opt_parts(3u32, Some(y)) == ep);
    assert(ep[1].0);
    let s = parts_bytes(ep) + rest;
    lemma_entry_bytes_read(3u32, extension_range_options_parts(y), rest);
    lemma_tag_value(3u32, WireType::LengthDelimited);
    let hl = parts_bytes(ep).len() as int;
    let k = varint_len(26u64) as int;
    assert((26u64 as u64) as u32 == 26u32);
    if depth < limit {
        match extension_range_options_merged(match d.options { Some(o) => o, None => extension_range_options_default() }, parts_bytes(extension_range_options_parts(y)), depth + 1, limit, false, None) {
            Ok(z) => {
                let v2 = ExtensionRangeView { options: Some(z), ..d };
                lemma_extension_range_step(d, s, k, 26u32, hl - k, v2, depth, limit);
                assert(s.skip(hl) == rest);
            },
            Err(e) => {},
        }
    }
}

/// Merging the bytes written for the field `options` of a `ExtensionRange` from `y` into `d` merges `y` into
/// the value `d` holds there (or into a default value, where it holds none), as merging
/// messages does, where `y` is read back as written and the existing value holds none of the
/// message fields `y` holds.
pub proof fn lemma_extension_range_merge_options_written(d: ExtensionRangeView, y: ExtensionRangeOptionsView, rest: Seq<u8>, depth: nat, limit: nat)
    requires
        parts_encodable(extension_range_options_opt_parts(3u32, Some(y))),
        depth < limit,
        extension_range_options_roundtrips(y, depth + 1, limit),
    ensures
        extension_range_merged(d, parts_bytes(extension_range_options_opt_parts(3u32, Some(y))) + rest, depth, limit, false, None) == extension_range_merged(ExtensionRangeView { options: Some(extension_range_options_merge_view(match d.options { Some(o) => o, None => extension_range_options_default() }, y)), ..d }, rest, depth, limit, false, None),
{
    lemma_extension_range_merge_options(d, y, rest, depth, limit);
    lemma_parts_encodable_two(entry_head(3u32, extension_range_options_parts(y)), extension_range_options_parts(y));
    assert(extension_range_options_opt_parts(3u32, Some(y)) == entry_parts(3u32, extension_range_options_parts(y)));
    lemma_extension_range_options_merge_written(match d.options { Some(o) => o, None => extension_range_options_default() }, y, depth + 1, limit);
}

/// Reading unknown field values written one after the other into a `ExtensionRange`, none with the tag
/// of one of its fields, adds them to its unknown fields.
proof fn lemma_extension_range_read_unknown(v: ExtensionRangeView, ps: Seq<(u32, FieldValue)>, rest: Seq<u8>, depth: nat, limit: nat)
    requires
        forall|k: int| 0 <= k < ps.len() ==> value_readable(#[trigger] ps[k].0, ps[k].1) && !extension_range_known_tag(
            tag_value(ps[k].0, field_value_wire_type(ps[k].1)),
        ),
    ensures
        extension_range_merged(v, parts_bytes(pairs_parts(ps)) + rest, depth, limit, false, None) == extension_range_merged(
            ExtensionRangeView { unknown_fields: push_pairs(v.unknown_fields, ps), ..v },
            rest,
            depth, limit, false, None,
        ),
    decreases ps.len(),
{
    if ps.len() == 0 {
        assert(parts_bytes(pairs_parts(ps)) + rest =~= rest);
    } else {
        let n = ps[0].0;
        let fv = ps[0].1;
        let tail = ps.drop_first();
        assert forall|k: int| 0 <= k < tail.len() implies value_readable(#[trigger] tail[k].0, tail[k].1) && !extension_range_known_tag(
            tag_value(tail[k].0, field_value_wire_type(tail[k].1)),
        ) by {
            assert(tail[k] == ps[k + 1]);
        }
        assert(value_readable(ps[0].0, ps[0].1));
        lemma_parts_bytes_append(field_value_parts(n, fv), pairs_parts(tail));
        let after = parts_bytes(pairs_parts(tail)) + rest;
        let s = parts_bytes(pairs_parts(ps)) + rest;
        assert(s =~= parts_bytes(field_value_parts(n, fv)) + after);
        lemma_read_value_bytes(n, fv, after);
        let t = tag_value(n, field_value_wire_type(fv));
        let hl = parts_bytes(field_value_parts(n, fv)).len() as int;
        let k = varint_len(t as u64) as int;
        let v2 = ExtensionRangeView { unknown_fields: view_push(v.unknown_fields, n, fv), ..v };
        lemma_extension_range_step(v, s, k, t, hl - k, v2, depth, limit);
        lemma_extension_range_read_unknown(v2, tail, rest, depth, limit);
    }
}

/// The writability of the parts of a `ExtensionRange` is that of each field's parts.
proof fn lemma_extension_range_parts_encodable(v: ExtensionRangeView)
    ensures
        parts_encodable(extension_range_parts(v)) == (parts_encodable(opt_field_parts::<raw::Int32>(1u32, v.start)) && parts_encodable(opt_field_parts::<raw::Int32>(2u32, v.end)) && parts_encodable(extension_range_options_opt_parts(3u32, v.options)) && parts_encodable(set_parts(v.unknown_fields))),
{
    reveal(extension_range_parts);
    let p0 = opt_field_parts::<raw::Int32>(1u32, v.start);
    let p1 = opt_field_parts::<raw::Int32>(2u32, v.end);
    let p2 = extension_range_options_opt_parts(3u32, v.options);
    let p3 = set_parts(v.unknown_fields);
    let q3 = p3;
    let q2 = p2 + q3;
    lemma_parts_encodable_two(p2, q3);
    let q1 = p1 + q2;
    lemma_parts_encodable_two(p1, q2);
    let q0 = p0 + q1;
    lemma_parts_encodable_two(p0, q1);
    assert(extension_range_parts(v) == q0);
}

/// The bytes of the parts of a `ExtensionRange` are those of each field's parts, one after the other.
proof fn lemma_extension_range_parts_bytes(v: ExtensionRangeView)
    ensures
        parts_bytes(extension_range_parts(v)) == parts_bytes(opt_field_parts::<raw::Int32>(1u32, v.start)) + (parts_bytes(opt_field_parts::<raw::Int32>(2u32, v.end)) + (parts_bytes(extension_range_options_opt_parts(3u32, v.options)) + parts_bytes(set_parts(v.unknown_fields)))),
{
    reveal(extension_range_parts);
    let p0 = opt_field_parts::<raw::Int32>(1u32, v.start);
    let p1 = opt_field_parts::<raw::Int32>(2u32, v.end);
    let p2 = extension_range_options_opt_parts(3u32, v.options);
    let p3 = set_parts(v.unknown_fields);
    let q3 = p3;
    let q2 = p2 + q3;
    lemma_parts_bytes_append(p2, q3);
    let q1 = p1 + q2;
    lemma_parts_bytes_append(p1, q2);
    let q0 = p0 + q1;
    lemma_parts_bytes_append(p0, q1);
    assert(extension_range_parts(v) == q0);
}

/// The message a `ExtensionRange` `d` becomes when `v` is merged into it: each field `v` holds once
/// replaces the one `d` holds, the values of each repeated field of `v` follow those of `d`,
/// and the unknown fields of `v` are added to those of `d`, field number by field number.
pub open spec fn extension_range_merge_view(d: ExtensionRangeView, v: ExtensionRangeView) -> ExtensionRangeView {
    ExtensionRangeView { start: newer_or(v.start, d.start), end: newer_or(v.end, d.end), options: newer_or(v.options, d.options), unknown_fields: view_merge(d.unknown_fields, v.unknown_fields) }
}

/// Reading the bytes of the parts of a `ExtensionRange` `v`, field by field, into `d` merges `v` into `d`.
#[verifier::spinoff_prover]
#[verifier::rlimit(60)]
proof fn lemma_extension_range_merge_all(d: ExtensionRangeView, v: ExtensionRangeView, depth: nat, limit: nat)
    requires
        parts_encodable(opt_field_parts::<raw::Int32>(1u32, v.start)),
        parts_encodable(opt_field_parts::<raw::Int32>(2u32, v.end)),
        parts_encodable(extension_range_options_opt_parts(3u32, v.options)),
        extension_range_roundtrips(v, depth, limit),
        v.options is Some ==> d.options is None,
        parts_bytes(extension_range_parts(v)) == parts_bytes(opt_field_parts::<raw::Int32>(1u32, v.start)) + (parts_bytes(opt_field_parts::<raw::Int32>(2u32, v.end)) + (parts_bytes(extension_range_options_opt_parts(3u32, v.options)) + parts_bytes(set_parts(v.unknown_fields)))),
    ensures
        extension_range_merged(d, parts_bytes(extension_range_parts(v)), depth, limit, false, None) == Ok::<ExtensionRangeView, ReadError>(extension_range_merge_view(d, v)),
{
    let p0 = opt_field_parts::<raw::Int32>(1u32, v.start);
    let p1 = opt_field_parts::<raw::Int32>(2u32, v.end);
    let p2 = extension_range_options_opt_parts(3u32, v.options);
    let p3 = set_parts(v.unknown_fields);
    let b0 = parts_bytes(p0);
    let b1 = parts_bytes(p1);
    let b2 = parts_bytes(p2);
    let b3 = parts_bytes(p3);
    let r3 = b3;
    let r2 = b2 + r3;
    let r1 = b1 + r2;
    let r0 = b0 + r1;
    let d0 = d;
    let d1 = ExtensionRangeView { start: newer_or(v.start, d.start), ..d0 };
    assert(extension_range_merged(d0, r0, depth, limit, false, None) == extension_range_merged(d1, r1, depth, limit, false, None)) by {
        lemma_extension_range_read_start(d0, v.start, r1, depth, limit);
        assert((if v.start is Some { ExtensionRangeView { start: v.start, ..d0 } } else { d0 }) == d1);
    }
    let d2 = ExtensionRangeView { end: newer_or(v.end, d.end), ..d1 };
    assert(extension_range_merged(d1, r1, depth, limit, false, None) == extension_range_merged(d2, r2, depth, limit, false, None)) by {
        lemma_extension_range_read_end(d1, v.end, r2, depth, limit);
        assert((if v.end is Some { ExtensionRangeView { end: v.end, ..d1 } } else { d1 }) == d2);
    }
    let d3 = ExtensionRangeView { options: newer_or(v.options, d.options), ..d2 };
    assert(extension_range_merged(d2, r2, depth, limit, false, None) == extension_range_merged(d3, r3, depth, limit, false, None)) by {
        lemma_extension_range_read_options(d2, v.options, r3, depth, limit);
        assert((if v.options is Some { ExtensionRangeView { options: v.options, ..d2 } } else { d2 }) == d3);
    }
    let ps = set_pairs(v.unknown_fields);
    assert(extension_range_merged(d3, r3, depth, limit, false, None) == Ok::<ExtensionRangeView, ReadError>(extension_range_merge_view(d, v))) by {
        lemma_set_pairs(v.unknown_fields, d.unknown_fields);
        lemma_entries_readable(v.unknown_fields);
        assert forall|k: int| 0 <= k < ps.len() implies value_readable(#[trigger] ps[k].0, ps[k].1) && !extension_range_known_tag(
            tag_value(ps[k].0, field_value_wire_type(ps[k].1)),
        ) by {
            assert(!extension_range_known_tag(tag_value(set_pairs(v.unknown_fields)[k].0, field_value_wire_type(set_pairs(v.unknown_fields)[k].1))));
        }
        lemma_extension_range_read_unknown(d3, ps, Seq::empty(), depth, limit);
        assert(b3 + Seq::<u8>::empty() =~= b3);
        let dl = ExtensionRangeView { unknown_fields: push_pairs(d3.unknown_fields, ps), ..d3 };
        assert(dl == extension_range_merge_view(d, v));
    }
}

/// Reading the bytes of the parts of a `ExtensionRange`, field by field, gives the message back.
proof fn lemma_extension_range_read_all(v: ExtensionRangeView, depth: nat, limit: nat)
    requires
        parts_encodable(opt_field_parts::<raw::Int32>(1u32, v.start)),
        parts_encodable(opt_field_parts::<raw::Int32>(2u32, v.end)),
        parts_encodable(extension_range_options_opt_parts(3u32, v.options)),
        extension_range_roundtrips(v, depth, limit),
        parts_bytes(extension_range_parts(v)) == parts_bytes(opt_field_parts::<raw::Int32>(1u32, v.start)) + (parts_bytes(opt_field_parts::<raw::Int32>(2u32, v.end)) + (parts_bytes(extension_range_options_opt_parts(3u32, v.options)) + parts_bytes(set_parts(v.unknown_fields)))),
    ensures
        extension_range_merged(extension_range_default(), parts_bytes(extension_range_parts(v)), depth, limit, false, None) == Ok::<ExtensionRangeView, ReadError>(v),
{
    lemma_extension_range_merge_all(extension_range_default(), v, depth, limit);
    lemma_entries_readable(v.unknown_fields);
    lemma_merge_into_empty(v.unknown_fields);
    assert(extension_range_merge_view(extension_range_default(), v) == v);
}

/// Merging what a `ExtensionRange` `v` writes into a message `d` merges `v` into `d`: each field `v`
/// holds replaces the one `d` holds, repeated values follow those `d` holds, and unknown fields
/// are added to those of `d`, where `d` holds none of the message fields `v` holds (those are
/// merged into each other), at nesting depth `depth` of a reader with recursion limit `limit`
/// that keeps unknown fields, outside any group, where `v` is read back as written.
pub proof fn lemma_extension_range_merge_written(d: ExtensionRangeView, v: ExtensionRangeView, depth: nat, limit: nat)
    requires
        parts_encodable(extension_range_parts(v)),
        extension_range_roundtrips(v, depth, limit),
        v.options is Some ==> d.options is None,
    ensures
        extension_range_merged(d, parts_bytes(extension_range_parts(v)), depth, limit, false, None) == Ok::<ExtensionRangeView, ReadError>(extension_range_merge_view(d, v)),
{
    lemma_extension_range_parts_encodable(v);
    lemma_extension_range_parts_bytes(v);
    lemma_extension_range_merge_all(d, v, depth, limit);
}

/// A `ExtensionRange` is read back as it is written: merging the bytes of its parts into a default
/// message, at nesting depth `depth` of a reader with recursion limit `limit` that keeps
/// unknown fields, outside any group, gives the message back, where it is read back as written.
pub proof fn lemma_extension_range_roundtrip(v: ExtensionRangeView, depth: nat, limit: nat)
    requires
        parts_encodable(extension_range_parts(v)),
        extension_range_roundtrips(v, depth, limit),
    ensures
        extension_range_merged(extension_range_default(), parts_bytes(extension_range_parts(v)), depth, limit, false, None) == Ok::<ExtensionRangeView, ReadError>(v),
{
    lemma_extension_range_parts_encodable(v);
    lemma_extension_range_parts_bytes(v);
    lemma_extension_range_read_all(v, depth, limit);
}

/// The `ReservedRange` message of `descriptor.proto`.
#[derive(Clone, Debug)]
pub struct ReservedRange {
    start: Option<i32>,
    end: Option<i32>,
    unknown_fields: UnknownFieldSet,
}

/// The view of a `ReservedRange`: its fields, and its unknown fields.
pub struct ReservedRangeView {
    /// The `start` field.
    pub start: Option<i32>,
    /// The `end` field.
    pub end: Option<i32>,
    /// The unknown fields.
    pub unknown_fields: Seq<(u32, Seq<FieldValue>)>,
}

/// The view of a `ReservedRange` value.
pub closed spec fn reserved_range_view(m: ReservedRange) -> ReservedRangeView
{
    ReservedRangeView {
        start: m.start,
        end: m.end,
        unknown_fields: m.unknown_fields@,
    }
}

/// The views of a run of `ReservedRange` values.
pub closed spec fn reserved_range_seq_view(s: Seq<ReservedRange>) -> Seq<ReservedRangeView>
    decreases s,
{
    if s.len() == 0 {
        Seq::empty()
    } else {
        reserved_range_seq_view(s.subrange(0, s.len() - 1)).push(reserved_range_view(s[s.len() - 1]))
    }
}

/// The view of a `ReservedRange` with no field set.
pub open spec fn reserved_range_default() -> ReservedRangeView {
    ReservedRangeView {
        start: None,
        end: None,
        unknown_fields: Seq::empty(),
    }
}

impl View for ReservedRange {
    type V = ReservedRangeView;

    open spec fn view(&self) -> ReservedRangeView {
        reserved_range_view(*self)
    }
}

impl Default for ReservedRange {
    /// A message with no field set.
    fn default() -> (r: ReservedRange)
        ensures
            r@ == reserved_range_default(),
    {
        let r = ReservedRange {
            start: None,
            end: None,
            unknown_fields: UnknownFieldSet::new(),
        };
        proof {
            assert(r@ =~= reserved_range_default());
        }
        r
    }
}

impl ReservedRange {
    /// Gets the `start` field, or its default, `0`.
    pub fn start(&self) -> (r: i32)
        ensures
            r == self@.start.unwrap_or(0i32),
    {
        match self.start {
            Some(v) => v,
            None => 0i32,
        }
    }

    /// Gets the `start` field if it is set.
    pub fn start_option(&self) -> (r: Option<&i32>)
        ensures
            opt_ref_view(r) == self@.start,
    {
        self.start.as_ref()
    }

    /// Gets the `start` field for changing it, setting it to its type's default first if it
    /// is not set.
    pub fn start_mut(&mut self) -> (r: &mut i32)
        ensures
            (*r)@ == old(self)@.start.unwrap_or(0i32),
            final(self)@ == (ReservedRangeView { start: Some((*final(r))@), ..old(self)@ }),
    {
        self.start.get_or_insert(0i32)
    }

    /// Returns whether the `start` field is set.
    pub fn has_start(&self) -> (r: bool)
        ensures
            r == self@.start is Some,
    {
        self.start.is_some()
    }

    /// Sets the `start` field.
    pub fn set_start(&mut self, value: i32)
        ensures
            final(self)@ == (ReservedRangeView { start: Some(value@), ..old(self)@ }),
    {
        self.start = Some(value);
    }

    /// Takes the `start` field out, leaving it unset.
    pub fn take_start(&mut self) -> (r: Option<i32>)
        ensures
            opt_view(r) == old(self)@.start,
            final(self)@ == (ReservedRangeView { start: None, ..old(self)@ }),
    {
        self.start.take()
    }

    /// Clears the `start` field, leaving it unset.
    pub fn clear_start(&mut self)
        ensures
            final(self)@ == (ReservedRangeView { start: None, ..old(self)@ }),
    {
        self.start = None;
    }

    /// Gets the `end` field, or its default, `0`.
    pub fn end(&self) -> (r: i32)
        ensures
            r == self@.end.unwrap_or(0i32),
    {
        match self.end {
            Some(v) => v,
            None => 0i32,
        }
    }

    /// Gets the `end` field if it is set.
    pub fn end_option(&self) -> (r: Option<&i32>)
        ensures
            opt_ref_view(r) == self@.end,
    {
        self.end.as_ref()
    }

    /// Gets the `end` field for changing it, setting it to its type's default first if it
    /// is not set.
    pub fn end_mut(&mut self) -> (r: &mut i32)
        ensures
            (*r)@ == old(self)@.end.unwrap_or(0i32),
            final(self)@ == (ReservedRangeView { end: Some((*final(r))@), ..old(self)@ }),
    {
        self.end.get_or_insert(0i32)
    }

    /// Returns whether the `end` field is set.
    pub fn has_end(&self) -> (r: bool)
        ensures
            r == self@.end is Some,
    {
        self.end.is_some()
    }

    /// Sets the `end` field.
    pub fn set_end(&mut self, value: i32)
        ensures
            final(self)@ == (ReservedRangeView { end: Some(value@), ..old(self)@ }),
    {
        self.end = Some(value);
    }

    /// Takes the `end` field out, leaving it unset.
    pub fn take_end(&mut self) -> (r: Option<i32>)
        ensures
            opt_view(r) == old(self)@.end,
            final(self)@ == (ReservedRangeView { end: None, ..old(self)@ }),
    {
        self.end.take()
    }

    /// Clears the `end` field, leaving it unset.
    pub fn clear_end(&mut self)
        ensures
            final(self)@ == (ReservedRangeView { end: None, ..old(self)@ }),
    {
        self.end = None;
    }
}

/// The parts a `ReservedRange` is written as: its fields that are set, in field number order, then its
/// unknown fields.
#[verifier::opaque]
pub open spec fn reserved_range_parts(v: ReservedRangeView) -> Seq<(bool, Seq<u8>)>
{
    opt_field_parts::<raw::Int32>(1u32, v.start) + (opt_field_parts::<raw::Int32>(2u32, v.end) + (set_parts(v.unknown_fields)))
}

/// The parts the `ReservedRange` values of a repeated field with field number `num` are written as:
/// for each, its tag, its length and its parts.
pub open spec fn reserved_range_seq_parts(num: u32, ys: Seq<ReservedRangeView>) -> Seq<(bool, Seq<u8>)>
    decreases ys,
{
    if ys.len() == 0 {
        Seq::empty()
    } else {
        reserved_range_seq_parts(num, ys.subrange(0, ys.len() - 1)) + entry_parts(num, reserved_range_parts(ys[ys.len() - 1]))
    }
}

/// What reading the field with tag value `t` from the front of `rest` into `v` gives: the
/// number of bytes read and the message after, or the error.
pub open spec fn reserved_range_field_read(v: ReservedRangeView, t: u32, rest: Seq<u8>, depth: nat, limit: nat, skip: bool, eg: Option<Tag>) -> ReadResult<(int, ReservedRangeView)>
{
    if t == 8u32 {
        match <raw::Int32 as Value>::decoding(rest) { Ok((m, x)) => Ok((m, ReservedRangeView { start: Some(x), ..v })), Err(e) => Err(e) }
    } else if t == 16u32 {
        match <raw::Int32 as Value>::decoding(rest) { Ok((m, x)) => Ok((m, ReservedRangeView { end: Some(x), ..v })), Err(e) => Err(e) }
    } else {
        match unknown_field_read(v.unknown_fields, t, rest, depth, limit, skip, eg) {
            Ok((m, u)) => Ok((m, ReservedRangeView { unknown_fields: u, ..v })),
            Err(e) => Err(e),
        }
    }
}

/// What reading all of `s` into `v` as `ReservedRange` fields gives: the message after, or the error.
/// `depth` and `limit` are the reader's depth and recursion limit, `skip` whether it skips
/// unknown fields, and `eg` the end tag of the group it is in.
pub open spec fn reserved_range_merged(v: ReservedRangeView, s: Seq<u8>, depth: nat, limit: nat, skip: bool, eg: Option<Tag>) -> ReadResult<ReservedRangeView>
    decreases s.len(),
{
    if s.len() == 0 {
        Ok(v)
    } else {
        match varint_read(s) {
            Err(e) => Err(e),
            Ok((n, w)) => if n < 1 || n > s.len() {
                Err(eof())
            } else {
                match reserved_range_field_read(v, w as u32, s.skip(n), depth, limit, skip, eg) {
                    Err(e) => Err(e),
                    Ok((m, v2)) => if m < 0 || n + m > s.len() {
                        Err(eof())
                    } else {
                        reserved_range_merged(v2, s.skip(n + m), depth, limit, skip, eg)
                    },
                }
            },
        }
    }
}

/// The views of a run of `ReservedRange` values, value by value.
pub proof fn lemma_reserved_range_seq_view(s: Seq<ReservedRange>)
    ensures
        reserved_range_seq_view(s).len() == s.len(),
        forall|i: int| 0 <= i < s.len() ==> #[trigger] reserved_range_seq_view(s)[i] == reserved_range_view(s[i]),
    decreases s.len(),
{
    if s.len() > 0 {
        lemma_reserved_range_seq_view(s.subrange(0, s.len() - 1));
        assert forall|i: int| 0 <= i < s.len() implies #[trigger] reserved_range_seq_view(s)[i] == reserved_range_view(s[i]) by {
            if i < s.len() - 1 {
                assert(s.subrange(0, s.len() - 1)[i] == s[i]);
            }
        }
    }
}

/// The parts of two runs of `ReservedRange` values are those of the first, then the second.
proof fn lemma_reserved_range_seq_parts_append(num: u32, a: Seq<ReservedRangeView>, b: Seq<ReservedRangeView>)
    ensures
        reserved_range_seq_parts(num, a + b) == reserved_range_seq_parts(num, a) + reserved_range_seq_parts(num, b),
    decreases b.len(),
{
    if b.len() == 0 {
        assert(a + b =~= a);
        assert(reserved_range_seq_parts(num, a) + reserved_range_seq_parts(num, b) =~= reserved_range_seq_parts(num, a));
    } else {
        let ab = a + b;
        assert(ab.subrange(0, ab.len() - 1) =~= a + b.subrange(0, b.len() - 1));
        assert(ab[ab.len() - 1] == b[b.len() - 1]);
        lemma_reserved_range_seq_parts_append(num, a, b.subrange(0, b.len() - 1));
        assert(reserved_range_seq_parts(num, a + b) =~= reserved_range_seq_parts(num, a) + reserved_range_seq_parts(num, b));
    }
}

/// The parts of the first `i + 1` values of a run are those of the first `i`, then the entry
/// of value `i`; and those of the whole run are those of the first `i + 1`, then the rest.
proof fn lemma_reserved_range_seq_parts_step(num: u32, ys: Seq<ReservedRangeView>, i: int)
    requires
        0 <= i < ys.len(),
    ensures
        reserved_range_seq_parts(num, ys.take(i + 1)) == reserved_range_seq_parts(num, ys.take(i)) + entry_parts(num, reserved_range_parts(ys[i])),
        reserved_range_seq_parts(num, ys) == reserved_range_seq_parts(num, ys.take(i + 1)) + reserved_range_seq_parts(num, ys.skip(i + 1)),
{
    assert(ys.take(i + 1).subrange(0, i) =~= ys.take(i));
    assert(ys.take(i + 1)[i] == ys[i]);
    lemma_reserved_range_seq_parts_append(num, ys.take(i + 1), ys.skip(i + 1));
    assert(ys.take(i + 1) + ys.skip(i + 1) =~= ys);
}

/// The parts of `ReservedRange` values are those of the first value's entry, then those of the others.
proof fn lemma_reserved_range_seq_parts_front(num: u32, ys: Seq<ReservedRangeView>)
    requires
        ys.len() > 0,
    ensures
        reserved_range_seq_parts(num, ys) == entry_parts(num, reserved_range_parts(ys[0])) + reserved_range_seq_parts(num, ys.drop_first()),
{
    let one = seq![ys[0]];
    lemma_reserved_range_seq_parts_append(num, one, ys.drop_first());
    assert(one + ys.drop_first() =~= ys);
    assert(one.subrange(0, 0) =~= Seq::<ReservedRangeView>::empty());
    assert(reserved_range_seq_parts(num, Seq::<ReservedRangeView>::empty()) =~= Seq::<(bool, Seq<u8>)>::empty());
    assert(one[0] == ys[0]);
    assert(reserved_range_seq_parts(num, one) =~= entry_parts(num, reserved_range_parts(ys[0])));
}

/// Adds the size of the `ReservedRange` values of a repeated field with field number `num`.
fn reserved_range_values_size(vs: &Vec<ReservedRange>, builder: LengthBuilder, num: FieldNumber) -> (r: Option<LengthBuilder>)
    ensures
        size_added(builder@ as int, parts_encodable(reserved_range_seq_parts(num@, reserved_range_seq_view(vs@))), parts_bytes(reserved_range_seq_parts(num@, reserved_range_seq_view(vs@))).len() as int, r),
{
    let ghost ys = reserved_range_seq_view(vs@);
    proof {
        lemma_reserved_range_seq_view(vs@);
        assert(ys.take(0) =~= Seq::<ReservedRangeView>::empty());
    }
    let mut b = builder;
    let mut i: usize = 0;
    while i < vs.len()
        invariant
            ys == reserved_range_seq_view(vs@),
            ys.len() == vs@.len(),
            forall|k: int| 0 <= k < vs@.len() ==> #[trigger] ys[k] == reserved_range_view(vs@[k]),
            i <= vs@.len(),
            size_added(builder@ as int, parts_encodable(reserved_range_seq_parts(num@, ys.take(i as int))), parts_bytes(reserved_range_seq_parts(num@, ys.take(i as int))).len() as int, Some(b)),
        decreases vs@.len() - i,
    {
        let ghost y = ys[i as int];
        let ghost done = reserved_range_seq_parts(num@, ys.take(i as int));
        let ghost cur = entry_parts(num@, reserved_range_parts(y));
        let ghost rest = reserved_range_seq_parts(num@, ys.skip(i + 1));
        proof {
            lemma_reserved_range_seq_parts_step(num@, ys, i as int);
        }
        let len = vs[i].calculate_size();
        let r = add_entry_size(b, num, len, Ghost(reserved_range_parts(y)));
        proof {
            lemma_size_chain(builder@ as int, done, cur, Some(b), r);
        }
        b = match r {
            Some(b1) => b1,
            None => {
                proof {
                    lemma_size_prefix(builder@ as int, done + cur, rest);
                }
                return None;
            },
        };
        i = i + 1;
    }
    proof {
        assert(ys.take(i as int) =~= ys);
    }
    Some(b)
}

/// Writes the `ReservedRange` values of a repeated field with field number `num`: for each, its tag,
/// its length and its fields.
fn write_reserved_range_values(vs: &Vec<ReservedRange>, output: &mut CodedWriter, num: FieldNumber) -> (r: WriteResult)
    ensures
        (final(output).written(), r) == parts_written(old(output).written(), old(output).capacity(), reserved_range_seq_parts(num@, reserved_range_seq_view(vs@))),
        final(output).capacity() == old(output).capacity(),
        (*final(final(output).target()))@ == (*final(old(output).target()))@,
{
    let ghost ys = reserved_range_seq_view(vs@);
    let ghost start = output.written();
    let ghost cap = output.capacity();
    proof {
        lemma_reserved_range_seq_view(vs@);
        assert(ys.take(0) =~= Seq::<ReservedRangeView>::empty());
    }
    let mut i: usize = 0;
    while i < vs.len()
        invariant
            ys == reserved_range_seq_view(vs@),
            ys.len() == vs@.len(),
            forall|k: int| 0 <= k < vs@.len() ==> #[trigger] ys[k] == reserved_range_view(vs@[k]),
            i <= vs@.len(),
            start == old(output).written(),
            cap == old(output).capacity(),
            output.capacity() == cap,
            (*final(output.target()))@ == (*final(old(output).target()))@,
            parts_written(start, cap, reserved_range_seq_parts(num@, ys.take(i as int))).0 == output.written(),
            parts_written(start, cap, reserved_range_seq_parts(num@, ys.take(i as int))).1 is Ok,
        decreases vs@.len() - i,
    {
        let ghost y = ys[i as int];
        let ghost done = reserved_range_seq_parts(num@, ys.take(i as int));
        let ghost head = entry_head(num@, reserved_range_parts(y));
        let ghost cur = head + reserved_range_parts(y);
        let ghost rest = reserved_range_seq_parts(num@, ys.skip(i + 1));
        let ghost w0 = output.written();
        proof {
            lemma_reserved_range_seq_parts_step(num@, ys, i as int);
            lemma_parts_written_append(start, cap, done, cur);
            lemma_parts_written_append(start, cap, done + cur, rest);
            lemma_parts_written_append(w0, cap, head, reserved_range_parts(y));
            reveal_with_fuel(parts_written, 3);
            assert(head.drop_first().drop_first() =~= Seq::<(bool, Seq<u8>)>::empty());
        }
        match output.write_tag(Tag::new(num, WireType::LengthDelimited)) {
            Ok(()) => {},
            Err(e) => return Err(e),
        }
        let len = match vs[i].calculate_size() {
            Some(len) => len,
            None => return Err(WriteError::ValueTooLarge),
        };
        match output.write_length(len) {
            Ok(()) => {},
            Err(e) => return Err(e),
        }
        match vs[i].write_to(output) {
            Ok(()) => {},
            Err(e) => return Err(e),
        }
        i = i + 1;
    }
    proof {
        assert(ys.take(i as int) =~= ys);
        lemma_ok_unit(parts_written(start, cap, reserved_range_seq_parts(num@, ys)).1);
    }
    Ok(())
}

/// Reads a `ReservedRange` from the reader as a length delimited value, merging it into `this`, one
/// level deeper.
fn merge_reserved_range_delimited(this: &mut ReservedRange, input: &mut CodedReader) -> (r: ReadResult<()>)
    ensures
        match length_delimited_read(old(input).available()) {
            Err(e) => r == Err::<(), ReadError>(e) && same_config(*old(input), *final(input)),
            Ok((m, b)) => if old(input).depth() >= old(input).recursion_limit() {
                r == Err::<(), ReadError>(ReadError::RecursionLimitExceeded) && same_config(*old(input), *final(input))
            } else {
                match reserved_range_merged(old(this)@, b, old(input).depth() + 1, old(input).recursion_limit(), skips(*old(input)), old(input).end_group_view()) {
                    Ok(y) => r is Ok && final(this)@ == y && final(input).position() == old(input).position() + m
                        && same_state(*old(input), *final(input)),
                    Err(e) => r == Err::<(), ReadError>(e) && same_config(*old(input), *final(input)),
                }
            },
        },
{
    let rem0 = input.remaining();
    let ghost s = input.available();
    let ghost start = *input;
    let length = match input.read_length() {
        Ok(l) => l,
        Err(e) => return Err(e),
    };
    let rem1 = input.remaining();
    let ghost n0 = input.position() - start.position();
    proof {
        lemma_varint_read_len(s);
        assert(input.available() =~= s.skip(n0));
    }
    let previous = match input.push_length(length) {
        Ok(p) => p,
        Err(e) => return Err(e),
    };
    let rem2 = input.remaining();
    let ghost b = s.subrange(n0, n0 + length@);
    proof {
        assert(input.available() =~= b);
        assert(length_delimited_read(s) == Ok::<(int, Seq<u8>), ReadError>((n0 + length@, b)));
    }
    let ghost pushed = *input;
    match input.increment_recursion_count() {
        Ok(()) => {},
        Err(e) => {
            input.pop_length(previous);
            return Err(e);
        },
    }
    let r = this.merge_from(input);
    let rem3 = input.remaining();
    input.decrement_recursion_count();
    input.pop_length(previous);
    r
}

impl ReservedRange {
    /// Gets the unknown fields of the message.
    pub fn unknown_fields(&self) -> (r: &UnknownFieldSet)
        ensures
            r@ == self@.unknown_fields,
    {
        &self.unknown_fields
    }

    /// Gets the unknown fields of the message for changing them.
    pub fn unknown_fields_mut(&mut self) -> (r: &mut UnknownFieldSet)
        ensures
            (*r)@ == old(self)@.unknown_fields,
            final(self)@ == (ReservedRangeView { unknown_fields: (*final(r))@, ..old(self)@ }),
    {
        &mut self.unknown_fields
    }

    /// Returns whether the message is initialized: whether all its required fields are set.
    pub fn is_initialized(&self) -> (r: bool)
        ensures
            r,
    {
        true
    }

    /// Calculates the size of the message as it is written: `None` if a part cannot be
    /// written or the size does not fit in a length.
    #[verifier::spinoff_prover]
    pub fn calculate_size(&self) -> (r: Option<Length>)
        ensures
            opt_length(r) == parts_size(reserved_range_parts(self@)),
    {
        let ghost v = self@;
        let ghost all = reserved_range_parts(v);
        let b0 = LengthBuilder::new();
        let ghost d0 = Seq::<(bool, Seq<u8>)>::empty();
        proof {
            reveal(reserved_range_parts);
            assert(all =~= d0 + all);
        }
        let ghost p1 = opt_field_parts::<raw::Int32>(1u32, v.start);
        let ghost rest1 = opt_field_parts::<raw::Int32>(2u32, v.end) + (set_parts(v.unknown_fields));
        proof {
            assert(self@.start == opt_inner_view::<raw::Int32>(self.start));
            assert(all == d0 + (p1 + rest1));
            assert(d0 + (p1 + rest1) =~= d0 + p1 + rest1);
        }
        let r1 = add_opt_field::<raw::Int32>(b0, FieldNumber::new_unchecked(1), &self.start);
        proof {
            lemma_size_chain(0, d0, p1, Some(b0), r1);
            if r1 is None {
                lemma_size_chain(0, d0 + p1, rest1, r1, r1);
            }
        }
        let b1 = match r1 {
            Some(b) => b,
            None => return None,
        };
        let ghost d1 = d0 + p1;
        let ghost p2 = opt_field_parts::<raw::Int32>(2u32, v.end);
        let ghost rest2 = set_parts(v.unknown_fields);
        proof {
            assert(self@.end == opt_inner_view::<raw::Int32>(self.end));
            assert(all == d1 + (p2 + rest2));
            assert(d1 + (p2 + rest2) =~= d1 + p2 + rest2);
        }
        let r2 = add_opt_field::<raw::Int32>(b1, FieldNumber::new_unchecked(2), &self.end);
        proof {
            lemma_size_chain(0, d1, p2, Some(b1), r2);
            if r2 is None {
                lemma_size_chain(0, d1 + p2, rest2, r2, r2);
            }
        }
        let b2 = match r2 {
            Some(b) => b,
            None => return None,
        };
        let ghost d2 = d1 + p2;
        let ghost p3 = set_parts(v.unknown_fields);
        let ghost rest3 = Seq::<(bool, Seq<u8>)>::empty();
        proof {
            assert(all == d2 + p3);
            assert(p3 + rest3 =~= p3);
            assert(d2 + (p3 + rest3) =~= d2 + p3 + rest3);
        }
        let r3 = self.unknown_fields.calculate_size(b2);
        proof {
            lemma_size_chain(0, d2, p3, Some(b2), r3);
            if r3 is None {
                lemma_size_chain(0, d2 + p3, rest3, r3, r3);
            }
        }
        let b3 = match r3 {
            Some(b) => b,
            None => return None,
        };
        let ghost d3 = d2 + p3;
        Some(b3.build())
    }

    /// Writes the message to the writer: its fields that are set, in field number order, then
    /// its unknown fields.
    #[verifier::spinoff_prover]
    pub fn write_to(&self, output: &mut CodedWriter) -> (r: WriteResult)
        ensures
            (final(output).written(), r) == parts_written(old(output).written(), old(output).capacity(), reserved_range_parts(self@)),
            final(output).capacity() == old(output).capacity(),
            (*final(final(output).target()))@ == (*final(old(output).target()))@,
    {
        let ghost v = self@;
        let ghost all = reserved_range_parts(v);
        let ghost start = output.written();
        let ghost cap = output.capacity();
        let ghost d0 = Seq::<(bool, Seq<u8>)>::empty();
        proof {
            reveal(reserved_range_parts);
            assert(all =~= d0 + all);
        }
        let ghost p1 = opt_field_parts::<raw::Int32>(1u32, v.start);
        let ghost rest1 = opt_field_parts::<raw::Int32>(2u32, v.end) + (set_parts(v.unknown_fields));
        proof {
            assert(self@.start == opt_inner_view::<raw::Int32>(self.start));
            assert(all == d0 + (p1 + rest1));
            assert(d0 + (p1 + rest1) =~= d0 + p1 + rest1);
            lemma_parts_written_append(start, cap, d0, p1);
            lemma_parts_written_append(start, cap, d0 + p1, rest1);
        }
        match write_opt_field::<raw::Int32>(output, FieldNumber::new_unchecked(1), &self.start) {
            Ok(()) => {},
            Err(e) => return Err(e),
        }
        let ghost d1 = d0 + p1;
        let ghost p2 = opt_field_parts::<raw::Int32>(2u32, v.end);
        let ghost rest2 = set_parts(v.unknown_fields);
        proof {
            assert(self@.end == opt_inner_view::<raw::Int32>(self.end));
            assert(all == d1 + (p2 + rest2));
            assert(d1 + (p2 + rest2) =~= d1 + p2 + rest2);
            lemma_parts_written_append(start, cap, d1, p2);
            lemma_parts_written_append(start, cap, d1 + p2, rest2);
        }
        match write_opt_field::<raw::Int32>(output, FieldNumber::new_unchecked(2), &self.end) {
            Ok(()) => {},
            Err(e) => return Err(e),
        }
        let ghost d2 = d1 + p2;
        let ghost p3 = set_parts(v.unknown_fields);
        let ghost rest3 = Seq::<(bool, Seq<u8>)>::empty();
        proof {
            assert(all == d2 + p3);
            assert(p3 + rest3 =~= p3);
            assert(d2 + (p3 + rest3) =~= d2 + p3 + rest3);
            lemma_parts_written_append(start, cap, d2, p3);
            lemma_parts_written_append(start, cap, d2 + p3, rest3);
        }
        match self.unknown_fields.write_to(output) {
            Ok(()) => {},
            Err(e) => return Err(e),
        }
        let ghost d3 = d2 + p3;
        proof {
            assert(all =~= d3 + Seq::<(bool, Seq<u8>)>::empty());
            assert(all == d3);
            lemma_ok_unit(parts_written(start, cap, all).1);
        }
        Ok(())
    }

    /// Reads the value of the field whose tag value `t` was just read into the message.
    #[verifier::spinoff_prover]
    fn merge_field(&mut self, t: u32, input: &mut CodedReader) -> (r: ReadResult<()>)
        ensures
            match reserved_range_field_read(old(self)@, t, old(input).available(), old(input).depth(), old(input).recursion_limit(), skips(*old(input)), old(input).end_group_view()) {
                Ok((m, v2)) => r is Ok && final(self)@ == v2 && m >= 0 && final(input).position()
                    == old(input).position() + m && same_state(*old(input), *final(input)),
                Err(e) => r == Err::<(), ReadError>(e) && same_config(*old(input), *final(input)),
            },
    {
        let rem0 = input.remaining();
        let ghost rest = input.available();
        if t == 8u32 {
            proof {
                <raw::Int32 as Value>::lemma_decoding_len(rest);
            }
            input.set_last_tag(Some(Tag::new(FieldNumber::new_unchecked(1), WireType::Varint)));
            match <raw::Int32 as Value>::merge_from(self.start.get_or_insert(0i32), input) {
                Ok(()) => {},
                Err(e) => return Err(e),
            }
        } else if t == 16u32 {
            proof {
                <raw::Int32 as Value>::lemma_decoding_len(rest);
            }
            input.set_last_tag(Some(Tag::new(FieldNumber::new_unchecked(2), WireType::Varint)));
            match <raw::Int32 as Value>::merge_from(self.end.get_or_insert(0i32), input) {
                Ok(()) => {},
                Err(e) => return Err(e),
            }
        } else {
            let tag = match Tag::try_from(t) {
                Ok(tag) => tag,
                Err(_) => return Err(ReadError::InvalidTag(t)),
            };
            input.set_last_tag(Some(tag));
            match self.unknown_fields.try_add_field_from(input) {
                Ok(TryRead::Consumed) => {},
                Ok(TryRead::Yielded) => match input.skip() {
                    Ok(()) => {},
                    Err(e) => return Err(e),
                },
                Err(e) => return Err(e),
            }
        }
        let rem1 = input.remaining();
        Ok(())
    }

    /// Merges the message with fields read from the reader, up to its limit. Scalar fields
    /// read replace those set, message fields are merged, repeated fields are added to,
    /// and unknown fields are stored or skipped as the reader says. On an error the message
    /// may hold some of the fields read before it.
    #[verifier::spinoff_prover]
    #[verifier::rlimit(50)]
    pub fn merge_from(&mut self, input: &mut CodedReader) -> (r: ReadResult<()>)
        ensures
            merge_outcome(reserved_range_merged(old(self)@, old(input).available(), old(input).depth(), old(input).recursion_limit(), skips(*old(input)), old(input).end_group_view()), final(self)@, *old(input), *final(input), r),
    {
        let rem0 = input.remaining();
        let ghost start = *input;
        let ghost total = reserved_range_merged(self@, input.available(), input.depth(), input.recursion_limit(), skips(*input), input.end_group_view());
        loop
            invariant
                start == *old(input),
                same_state(start, *input),
                0 <= start.position() <= input.position(),
                input.limit_end() <= input.input().len(),
                total == reserved_range_merged(old(self)@, start.available(), start.depth(), start.recursion_limit(), skips(start), start.end_group_view()),
                total == reserved_range_merged(self@, input.available(), start.depth(), start.recursion_limit(), skips(start), start.end_group_view()),
            decreases input.available().len(),
        {
            let ghost s = input.available();
            let ghost before = *input;
            let ghost v = self@;
            let t = match input.read_field() {
                Ok(Some(t)) => t,
                Ok(None) => return Ok(()),
                Err(e) => return Err(e),
            };
            let rem1 = input.remaining();
            let ghost n = input.position() - before.position();
            proof {
                lemma_varint_read_len(s);
                assert(input.available() =~= s.skip(n));
            }
            let ghost mid = *input;
            match self.merge_field(t, input) {
                Ok(()) => {},
                Err(e) => return Err(e),
            }
            let rem2 = input.remaining();
            proof {
                let m = input.position() - mid.position();
                assert(input.available() =~= s.skip(n + m));
            }
        }
    }
}

impl crate::Message for ReservedRange {
    open spec fn merged(v: ReservedRangeView, s: Seq<u8>, depth: nat, limit: nat, skip: bool, eg: Option<Tag>) -> ReadResult<ReservedRangeView> {
        reserved_range_merged(v, s, depth, limit, skip, eg)
    }

    open spec fn parts(v: ReservedRangeView) -> Seq<(bool, Seq<u8>)> {
        reserved_range_parts(v)
    }

    open spec fn initialized(v: ReservedRangeView) -> bool {
        true
    }

    open spec fn unknown_fields_of(v: ReservedRangeView) -> Seq<(u32, Seq<FieldValue>)> {
        v.unknown_fields
    }

    open spec fn with_unknown_fields(v: ReservedRangeView, u: Seq<(u32, Seq<FieldValue>)>) -> ReservedRangeView {
        ReservedRangeView { unknown_fields: u, ..v }
    }

    fn merge_from(&mut self, input: &mut CodedReader) -> (r: ReadResult<()>) {
        ReservedRange::merge_from(self, input)
    }

    fn calculate_size(&self) -> (r: Option<Length>) {
        ReservedRange::calculate_size(self)
    }

    fn write_to(&self, output: &mut CodedWriter) -> (r: WriteResult) {
        ReservedRange::write_to(self, output)
    }

    fn is_initialized(&self) -> (r: bool) {
        ReservedRange::is_initialized(self)
    }

    fn unknown_fields(&self) -> (r: &UnknownFieldSet) {
        ReservedRange::unknown_fields(self)
    }

    fn unknown_fields_mut(&mut self) -> (r: &mut UnknownFieldSet) {
        ReservedRange::unknown_fields_mut(self)
    }
}

impl DebugMessage for ReservedRange {
    open spec fn spec_full_name() -> Seq<char> {
        "google.protobuf.DescriptorProto.ReservedRange"@
    }

    open spec fn spec_name() -> Seq<char> {
        "ReservedRange"@
    }

    fn full_name() -> (r: &'static str) {
        "google.protobuf.DescriptorProto.ReservedRange"
    }

    fn name() -> (r: &'static str) {
        "ReservedRange"
    }
}

/// Whether `t` is the tag of a field a `ReservedRange` reads.
pub open spec fn reserved_range_known_tag(t: u32) -> bool {
    t == 8u32 || t == 16u32
}

/// Whether a `ReservedRange` is read back as it is written, at nesting depth `depth` of a reader with
/// recursion limit `limit`: its messages are read back as written one level deeper, within
/// the limit; and its unknown fields are read back as written, none with the tag of one of
/// its fields.
pub open spec fn reserved_range_roundtrips(v: ReservedRangeView, depth: nat, limit: nat) -> bool
{
    &&& set_readable(v.unknown_fields)
    &&& forall|k: int| 0 <= k < set_pairs(v.unknown_fields).len() ==> !reserved_range_known_tag(tag_value(
        #[trigger] set_pairs(v.unknown_fields)[k].0,
        field_value_wire_type(set_pairs(v.unknown_fields)[k].1),
    ))
}

/// Reading a `ReservedRange` field whose tag is read from the front of `s` and whose value is read after
/// it continues with the rest of `s`.
proof fn lemma_reserved_range_step(v: ReservedRangeView, s: Seq<u8>, k: int, t: u32, m: int, v2: ReservedRangeView, depth: nat, limit: nat)
    requires
        varint_read(s) == Ok::<(int, u64), ReadError>((k, t as u64)),
        1 <= k <= s.len(),
        reserved_range_field_read(v, t, s.skip(k), depth, limit, false, None) == Ok::<(int, ReservedRangeView), ReadError>((m, v2)),
        0 <= m,
        k + m <= s.len(),
    ensures
        reserved_range_merged(v, s, depth, limit, false, None) == reserved_range_merged(v2, s.skip(k + m), depth, limit, false, None),
{
    assert((t as u64) as u32 == t);
}

/// Reading the field `start` of a `ReservedRange` written from `o` sets it to `o`, whatever it held; nothing
/// is written, and nothing changes, for `None`.
proof fn lemma_reserved_range_read_start(d: ReservedRangeView, o: Option<i32>, rest: Seq<u8>, depth: nat, limit: nat)
    requires
        parts_encodable(opt_field_parts::<raw::Int32>(1u32, o)),
    ensures
        reserved_range_merged(d, parts_bytes(opt_field_parts::<raw::Int32>(1u32, o)) + rest, depth, limit, false, None) == reserved_range_merged(if o is Some { ReservedRangeView { start: o, ..d } } else { d }, rest, depth, limit, false, None),
{
    match o {
        None => {
            assert(parts_bytes(opt_field_parts::<raw::Int32>(1u32, o)) + rest =~= rest);
        },
        Some(x) => {
            let p = field_parts::<raw::Int32>(1u32, x);
            assert(p[1].0);
            let s = parts_bytes(p) + rest;
            lemma_field_bytes_read::<raw::Int32>(1u32, x, rest);
            lemma_tag_value(1u32, WireType::Varint);
            let hl = parts_bytes(p).len() as int;
            let k = varint_len(8u64) as int;
            let v2 = ReservedRangeView { start: Some(x), ..d };
            lemma_reserved_range_step(d, s, k, 8u32, hl - k, v2, depth, limit);
        },
    }
}

/// Reading the field `end` of a `ReservedRange` written from `o` sets it to `o`, whatever it held; nothing
/// is written, and nothing changes, for `None`.
proof fn lemma_reserved_range_read_end(d: ReservedRangeView, o: Option<i32>, rest: Seq<u8>, depth: nat, limit: nat)
    requires
        parts_encodable(opt_field_parts::<raw::Int32>(2u32, o)),
    ensures
        reserved_range_merged(d, parts_bytes(opt_field_parts::<raw::Int32>(2u32, o)) + rest, depth, limit, false, None) == reserved_range_merged(if o is Some { ReservedRangeView { end: o, ..d } } else { d }, rest, depth, limit, false, None),
{
    match o {
        None => {
            assert(parts_bytes(opt_field_parts::<raw::Int32>(2u32, o)) + rest =~= rest);
        },
        Some(x) => {
            let p = field_parts::<raw::Int32>(2u32, x);
            assert(p[1].0);
            let s = parts_bytes(p) + rest;
            lemma_field_bytes_read::<raw::Int32>(2u32, x, rest);
            lemma_tag_value(2u32, WireType::Varint);
            let hl = parts_bytes(p).len() as int;
            let k = varint_len(16u64) as int;
            let v2 = ReservedRangeView { end: Some(x), ..d };
            lemma_reserved_range_step(d, s, k, 16u32, hl - k, v2, depth, limit);
        },
    }
}

/// Reading unknown field values written one after the other into a `ReservedRange`, none with the tag
/// of one of its fields, adds them to its unknown fields.
proof fn lemma_reserved_range_read_unknown(v: ReservedRangeView, ps: Seq<(u32, FieldValue)>, rest: Seq<u8>, depth: nat, limit: nat)
    requires
        forall|k: int| 0 <= k < ps.len() ==> value_readable(#[trigger] ps[k].0, ps[k].1) && !reserved_range_known_tag(
            tag_value(ps[k].0, field_value_wire_type(ps[k].1)),
        ),
    ensures
        reserved_range_merged(v, parts_bytes(pairs_parts(ps)) + rest, depth, limit, false, None) == reserved_range_merged(
            ReservedRangeView { unknown_fields: push_pairs(v.unknown_fields, ps), ..v },
            rest,
            depth, limit, false, None,
        ),
    decreases ps.len(),
{
    if ps.len() == 0 {
        assert(parts_bytes(pairs_parts(ps)) + rest =~= rest);
    } else {
        let n = ps[0].0;
        let fv = ps[0].1;
        let tail = ps.drop_first();
        assert forall|k: int| 0 <= k < tail.len() implies value_readable(#[trigger] tail[k].0, tail[k].1) && !reserved_range_known_tag(
            tag_value(tail[k].0, field_value_wire_type(tail[k].1)),
        ) by {
            assert(tail[k] == ps[k + 1]);
        }
        assert(value_readable(ps[0].0, ps[0].1));
        lemma_parts_bytes_append(field_value_parts(n, fv), pairs_parts(tail));
        let after = parts_bytes(pairs_parts(tail)) + rest;
        let s = parts_bytes(pairs_parts(ps)) + rest;
        assert(s =~= parts_bytes(field_value_parts(n, fv)) + after);
        lemma_read_value_bytes(n, fv, after);
        let t = tag_value(n, field_value_wire_type(fv));
        let hl = parts_bytes(field_value_parts(n, fv)).len() as int;
        let k = varint_len(t as u64) as int;
        let v2 = ReservedRangeView { unknown_fields: view_push(v.unknown_fields, n, fv), ..v };
        lemma_reserved_range_step(v, s, k, t, hl - k, v2, depth, limit);
        lemma_reserved_range_read_unknown(v2, tail, rest, depth, limit);
    }
}

/// The writability of the parts of a `ReservedRange` is that of each field's parts.
proof fn lemma_reserved_range_parts_encodable(v: ReservedRangeView)
    ensures
        parts_encodable(reserved_range_parts(v)) == (parts_encodable(opt_field_parts::<raw::Int32>(1u32, v.start)) && parts_encodable(opt_field_parts::<raw::Int32>(2u32, v.end)) && parts_encodable(set_parts(v.unknown_fields))),
{
    reveal(reserved_range_parts);
    let p0 = opt_field_parts::<raw::Int32>(1u32, v.start);
    let p1 = opt_field_parts::<raw::Int32>(2u32, v.end);
    let p2 = set_parts(v.unknown_fields);
    let q2 = p2;
    let q1 = p1 + q2;
    lemma_parts_encodable_two(p1, q2);
    let q0 = p0 + q1;
    lemma_parts_encodable_two(p0, q1);
    assert(reserved_range_parts(v) == q0);
}

/// The bytes of the parts of a `ReservedRange` are those of each field's parts, one after the other.
proof fn lemma_reserved_range_parts_bytes(v: ReservedRangeView)
    ensures
        parts_bytes(reserved_range_parts(v)) == parts_bytes(opt_field_parts::<raw::Int32>(1u32, v.start)) + (parts_bytes(opt_field_parts::<raw::Int32>(2u32, v.end)) + parts_bytes(set_parts(v.unknown_fields))),
{
    reveal(reserved_range_parts);
    let p0 = opt_field_parts::<raw::Int32>(1u32, v.start);
    let p1 = opt_field_parts::<raw::Int32>(2u32, v.end);
    let p2 = set_parts(v.unknown_fields);
    let q2 = p2;
    let q1 = p1 + q2;
    lemma_parts_bytes_append(p1, q2);
    let q0 = p0 + q1;
    lemma_parts_bytes_append(p0, q1);
    assert(reserved_range_parts(v) == q0);
}

/// The message a `ReservedRange` `d` becomes when `v` is merged into it: each field `v` holds once
/// replaces the one `d` holds, the values of each repeated field of `v` follow those of `d`,
/// and the unknown fields of `v` are added to those of `d`, field number by field number.
pub open spec fn reserved_range_merge_view(d: ReservedRangeView, v: ReservedRangeView) -> ReservedRangeView {
    ReservedRangeView { start: newer_or(v.start, d.start), end: newer_or(v.end, d.end), unknown_fields: view_merge(d.unknown_fields, v.unknown_fields) }
}

/// Reading the bytes of the parts of a `ReservedRange` `v`, field by field, into `d` merges `v` into `d`.
#[verifier::spinoff_prover]
#[verifier::rlimit(60)]
proof fn lemma_reserved_range_merge_all(d: ReservedRangeView, v: ReservedRangeView, depth: nat, limit: nat)
    requires
        parts_encodable(opt_field_parts::<raw::Int32>(1u32, v.start)),
        parts_encodable(opt_field_parts::<raw::Int32>(2u32, v.end)),
        reserved_range_roundtrips(v, depth, limit),
        parts_bytes(reserved_range_parts(v)) == parts_bytes(opt_field_parts::<raw::Int32>(1u32, v.start)) + (parts_bytes(opt_field_parts::<raw::Int32>(2u32, v.end)) + parts_bytes(set_parts(v.unknown_fields))),
    ensures
        reserved_range_merged(d, parts_bytes(reserved_range_parts(v)), depth, limit, false, None) == Ok::<ReservedRangeView, ReadError>(reserved_range_merge_view(d, v)),
{
    let p0 = opt_field_parts::<raw::Int32>(1u32, v.start);
    let p1 = opt_field_parts::<raw::Int32>(2u32, v.end);
    let p2 = set_parts(v.unknown_fields);
    let b0 = parts_bytes(p0);
    let b1 = parts_bytes(p1);
    let b2 = parts_bytes(p2);
    let r2 = b2;
    let r1 = b1 + r2;
    let r0 = b0 + r1;
    let d0 = d;
    let d1 = ReservedRangeView { start: newer_or(v.start, d.start), ..d0 };
    assert(reserved_range_merged(d0, r0, depth, limit, false, None) == reserved_range_merged(d1, r1, depth, limit, false, None)) by {
        lemma_reserved_range_read_start(d0, v.start, r1, depth, limit);
        assert((if v.start is Some { ReservedRangeView { start: v.start, ..d0 } } else { d0 }) == d1);
    }
    let d2 = ReservedRangeView { end: newer_or(v.end, d.end), ..d1 };
    assert(reserved_range_merged(d1, r1, depth, limit, false, None) == reserved_range_merged(d2, r2, depth, limit, false, None)) by {
        lemma_reserved_range_read_end(d1, v.end, r2, depth, limit);
        assert((if v.end is Some { ReservedRangeView { end: v.end, ..d1 } } else { d1 }) == d2);
    }
    let ps = set_pairs(v.unknown_fields);
    assert(reserved_range_merged(d2, r2, depth, limit, false, None) == Ok::<ReservedRangeView, ReadError>(reserved_range_merge_view(d, v))) by {
        lemma_set_pairs(v.unknown_fields, d.unknown_fields);
        lemma_entries_readable(v.unknown_fields);
        assert forall|k: int| 0 <= k < ps.len() implies value_readable(#[trigger] ps[k].0, ps[k].1) && !reserved_range_known_tag(
            tag_value(ps[k].0, field_value_wire_type(ps[k].1)),
        ) by {
            assert(!reserved_range_known_tag(tag_value(set_pairs(v.unknown_fields)[k].0, field_value_wire_type(set_pairs(v.unknown_fields)[k].1))));
        }
        lemma_reserved_range_read_unknown(d2, ps, Seq::empty(), depth, limit);
        assert(b2 + Seq::<u8>::empty() =~= b2);
        let dl = ReservedRangeView { unknown_fields: push_pairs(d2.unknown_fields, ps), ..d2 };
        assert(dl == reserved_range_merge_view(d, v));
    }
}

/// Reading the bytes of the parts of a `ReservedRange`, field by field, gives the message back.
proof fn lemma_reserved_range_read_all(v: ReservedRangeView, depth: nat, limit: nat)
    requires
        parts_encodable(opt_field_parts::<raw::Int32>(1u32, v.start)),
        parts_encodable(opt_field_parts::<raw::Int32>(2u32, v.end)),
        reserved_range_roundtrips(v, depth, limit),
        parts_bytes(reserved_range_parts(v)) == parts_bytes(opt_field_parts::<raw::Int32>(1u32, v.start)) + (parts_bytes(opt_field_parts::<raw::Int32>(2u32, v.end)) + parts_bytes(set_parts(v.unknown_fields))),
    ensures
        reserved_range_merged(reserved_range_default(), parts_bytes(reserved_range_parts(v)), depth, limit, false, None) == Ok::<ReservedRangeView, ReadError>(v),
{
    lemma_reserved_range_merge_all(reserved_range_default(), v, depth, limit);
    lemma_entries_readable(v.unknown_fields);
    lemma_merge_into_empty(v.unknown_fields);
    assert(reserved_range_merge_view(reserved_range_default(), v) == v);
}

/// Merging what a `ReservedRange` `v` writes into a message `d` merges `v` into `d`: each field `v`
/// holds replaces the one `d` holds, repeated values follow those `d` holds, and unknown fields
/// are added to those of `d`, where `d` holds none of the message fields `v` holds (those are
/// merged into each other), at nesting depth `depth` of a reader with recursion limit `limit`
/// that keeps unknown fields, outside any group, where `v` is read back as written.
pub proof fn lemma_reserved_range_merge_written(d: ReservedRangeView, v: ReservedRangeView, depth: nat, limit: nat)
    requires
        parts_encodable(reserved_range_parts(v)),
        reserved_range_roundtrips(v, depth, limit),
    ensures
        reserved_range_merged(d, parts_bytes(reserved_range_parts(v)), depth, limit, false, None) == Ok::<ReservedRangeView, ReadError>(reserved_range_merge_view(d, v)),
{
    lemma_reserved_range_parts_encodable(v);
    lemma_reserved_range_parts_bytes(v);
    lemma_reserved_range_merge_all(d, v, depth, limit);
}

/// A `ReservedRange` is read back as it is written: merging the bytes of its parts into a default
/// message, at nesting depth `depth` of a reader with recursion limit `limit` that keeps
/// unknown fields, outside any group, gives the message back, where it is read back as written.
pub proof fn lemma_reserved_range_roundtrip(v: ReservedRangeView, depth: nat, limit: nat)
    requires
        parts_encodable(reserved_range_parts(v)),
        reserved_range_roundtrips(v, depth, limit),
    ensures
        reserved_range_merged(reserved_range_default(), parts_bytes(reserved_range_parts(v)), depth, limit, false, None) == Ok::<ReservedRangeView, ReadError>(v),
{
    lemma_reserved_range_parts_encodable(v);
    lemma_reserved_range_parts_bytes(v);
    lemma_reserved_range_read_all(v, depth, limit);
}

/// The `ExtensionRangeOptions` message of `descriptor.proto`.
#[derive(Clone, Debug)]
pub struct ExtensionRangeOptions {
    uninterpreted_option: RepeatedField<UninterpretedOption>,
    unknown_fields: UnknownFieldSet,
}

/// The view of a `ExtensionRangeOptions`: its fields, and its unknown fields.
pub struct ExtensionRangeOptionsView {
    /// The `uninterpreted_option` field.
    pub uninterpreted_option: Seq<UninterpretedOptionView>,
    /// The unknown fields.
    pub unknown_fields: Seq<(u32, Seq<FieldValue>)>,
}

/// The view of a `ExtensionRangeOptions` value.
pub closed spec fn extension_range_options_view(m: ExtensionRangeOptions) -> ExtensionRangeOptionsView
{
    ExtensionRangeOptionsView {
        uninterpreted_option: uninterpreted_option_seq_view(m.uninterpreted_option@),
        unknown_fields: m.unknown_fields@,
    }
}

/// The view of a `ExtensionRangeOptions` with no field set.
pub open spec fn extension_range_options_default() -> ExtensionRangeOptionsView {
    ExtensionRangeOptionsView {
        uninterpreted_option: Seq::empty(),
        unknown_fields: Seq::empty(),
    }
}

impl View for ExtensionRangeOptions {
    type V = ExtensionRangeOptionsView;

    open spec fn view(&self) -> ExtensionRangeOptionsView {
        extension_range_options_view(*self)
    }
}

impl Default for ExtensionRangeOptions {
    /// A message with no field set.
    fn default() -> (r: ExtensionRangeOptions)
        ensures
            r@ == extension_range_options_default(),
    {
        let r = ExtensionRangeOptions {
            uninterpreted_option: Vec::new(),
            unknown_fields: UnknownFieldSet::new(),
        };
        proof {
            assert(uninterpreted_option_seq_view(r.uninterpreted_option@) =~= Seq::empty());
            assert(r@ =~= extension_range_options_default());
        }
        r
    }
}

impl ExtensionRangeOptions {
    /// Gets the values of the `uninterpreted_option` field.
    pub fn uninterpreted_option(&self) -> (r: &RepeatedField<UninterpretedOption>)
        ensures
            uninterpreted_option_seq_view(r@) == self@.uninterpreted_option,
    {
        &self.uninterpreted_option
    }

    /// Gets the values of the `uninterpreted_option` field for changing them.
    pub fn uninterpreted_option_mut(&mut self) -> (r: &mut RepeatedField<UninterpretedOption>)
        ensures
            uninterpreted_option_seq_view((*r)@) == old(self)@.uninterpreted_option,
            final(self)@ == (ExtensionRangeOptionsView { uninterpreted_option: uninterpreted_option_seq_view((*final(r))@), ..old(self)@ }),
    {
        &mut self.uninterpreted_option
    }
}

/// The parts a `ExtensionRangeOptions` is written as: its fields that are set, in field number order, then its
/// unknown fields.
#[verifier::opaque]
pub open spec fn extension_range_options_parts(v: ExtensionRangeOptionsView) -> Seq<(bool, Seq<u8>)>
{
    uninterpreted_option_seq_parts(999u32, v.uninterpreted_option) + (set_parts(v.unknown_fields))
}

/// What reading the field with tag value `t` from the front of `rest` into `v` gives: the
/// number of bytes read and the message after, or the error.
pub open spec fn extension_range_options_field_read(v: ExtensionRangeOptionsView, t: u32, rest: Seq<u8>, depth: nat, limit: nat, skip: bool, eg: Option<Tag>) -> ReadResult<(int, ExtensionRangeOptionsView)>
{
    if t == 7994u32 {
        match length_delimited_read(rest) { Err(e) => Err(e), Ok((m, b)) => if depth >= limit { Err(ReadError::RecursionLimitExceeded) } else { match uninterpreted_option_merged(uninterpreted_option_default(), b, depth + 1, limit, skip, eg) { Ok(y) => Ok((m, ExtensionRangeOptionsView { uninterpreted_option: v.uninterpreted_option.push(y), ..v })), Err(e) => Err(e) } } }
    } else {
        match unknown_field_read(v.unknown_fields, t, rest, depth, limit, skip, eg) {
            Ok((m, u)) => Ok((m, ExtensionRangeOptionsView { unknown_fields: u, ..v })),
            Err(e) => Err(e),
        }
    }
}

/// What reading all of `s` into `v` as `ExtensionRangeOptions` fields gives: the message after, or the error.
/// `depth` and `limit` are the reader's depth and recursion limit, `skip` whether it skips
/// unknown fields, and `eg` the end tag of the group it is in.
pub open spec fn extension_range_options_merged(v: ExtensionRangeOptionsView, s: Seq<u8>, depth: nat, limit: nat, skip: bool, eg: Option<Tag>) -> ReadResult<ExtensionRangeOptionsView>
    decreases s.len(),
{
    if s.len() == 0 {
        Ok(v)
    } else {
        match varint_read(s) {
            Err(e) => Err(e),
            Ok((n, w)) => if n < 1 || n > s.len() {
                Err(eof())
            } else {
                match extension_range_options_field_read(v, w as u32, s.skip(n), depth, limit, skip, eg) {
                    Err(e) => Err(e),
                    Ok((m, v2)) => if m < 0 || n + m > s.len() {
                        Err(eof())
                    } else {
                        extension_range_options_merged(v2, s.skip(n + m), depth, limit, skip, eg)
                    },
                }
            },
        }
    }
}

/// Reads a `ExtensionRangeOptions` from the reader as a length delimited value, merging it into `this`, one
/// level deeper.
fn merge_extension_range_options_delimited(this: &mut ExtensionRangeOptions, input: &mut CodedReader) -> (r: ReadResult<()>)
    ensures
        match length_delimited_read(old(input).available()) {
            Err(e) => r == Err::<(), ReadError>(e) && same_config(*old(input), *final(input)),
            Ok((m, b)) => if old(input).depth() >= old(input).recursion_limit() {
                r == Err::<(), ReadError>(ReadError::RecursionLimitExceeded) && same_config(*old(input), *final(input))
            } else {
                match extension_range_options_merged(old(this)@, b, old(input).depth() + 1, old(input).recursion_limit(), skips(*old(input)), old(input).end_group_view()) {
                    Ok(y) => r is Ok && final(this)@ == y && final(input).position() == old(input).position() + m
                        && same_state(*old(input), *final(input)),
                    Err(e) => r == Err::<(), ReadError>(e) && same_config(*old(input), *final(input)),
                }
            },
        },
{
    let rem0 = input.remaining();
    let ghost s = input.available();
    let ghost start = *input;
    let length = match input.read_length() {
        Ok(l) => l,
        Err(e) => return Err(e),
    };
    let rem1 = input.remaining();
    let ghost n0 = input.position() - start.position();
    proof {
        lemma_varint_read_len(s);
        assert(input.available() =~= s.skip(n0));
    }
    let previous = match input.push_length(length) {
        Ok(p) => p,
        Err(e) => return Err(e),
    };
    let rem2 = input.remaining();
    let ghost b = s.subrange(n0, n0 + length@);
    proof {
        assert(input.available() =~= b);
        assert(length_delimited_read(s) == Ok::<(int, Seq<u8>), ReadError>((n0 + length@, b)));
    }
    let ghost pushed = *input;
    match input.increment_recursion_count() {
        Ok(()) => {},
        Err(e) => {
            input.pop_length(previous);
            return Err(e);
        },
    }
    let r = this.merge_from(input);
    let rem3 = input.remaining();
    input.decrement_recursion_count();
    input.pop_length(previous);
    r
}

/// The parts an optional `ExtensionRangeOptions` field with field number `num` is written as: nothing where it
/// is not set, else its tag, its length and its parts.
pub open spec fn extension_range_options_opt_parts(num: u32, o: Option<ExtensionRangeOptionsView>) -> Seq<(bool, Seq<u8>)> {
    match o {
        Some(y) => entry_parts(num, extension_range_options_parts(y)),
        None => Seq::empty(),
    }
}

/// Adds the size of an optional `ExtensionRangeOptions` field with field number `num` to the builder.
fn extension_range_options_opt_size(o: &Option<ExtensionRangeOptions>, b: LengthBuilder, num: FieldNumber) -> (r: Option<LengthBuilder>)
    ensures
        size_added(b@ as int, parts_encodable(extension_range_options_opt_parts(num@, opt_view(*o))), parts_bytes(extension_range_options_opt_parts(num@, opt_view(*o))).len() as int, r),
{
    match o {
        Some(y) => {
            let len = y.calculate_size();
            add_entry_size(b, num, len, Ghost(extension_range_options_parts(y@)))
        },
        None => {
            proof {
                assert(parts_encodable(Seq::<(bool, Seq<u8>)>::empty()));
                assert(parts_bytes(Seq::<(bool, Seq<u8>)>::empty()).len() == 0);
            }
            Some(b)
        },
    }
}

/// Writes an optional `ExtensionRangeOptions` field with field number `num`: nothing where it is not set, else
/// its tag, its length and its fields.
fn write_extension_range_options_opt(o: &Option<ExtensionRangeOptions>, output: &mut CodedWriter, num: FieldNumber) -> (r: WriteResult)
    ensures
        (final(output).written(), r) == parts_written(old(output).written(), old(output).capacity(), extension_range_options_opt_parts(num@, opt_view(*o))),
        final(output).capacity() == old(output).capacity(),
        (*final(final(output).target()))@ == (*final(old(output).target()))@,
{
    match o {
        Some(y) => {
            let ghost p = extension_range_options_parts(y@);
            let ghost head = entry_head(num@, p);
            let ghost w0 = output.written();
            let ghost cap = output.capacity();
            proof {
                lemma_parts_written_append(w0, cap, head, p);
                reveal_with_fuel(parts_written, 3);
                assert(head.drop_first().drop_first() =~= Seq::<(bool, Seq<u8>)>::empty());
                lemma_varint_roundtrip(tag_value(num@, WireType::LengthDelimited) as u64);
            }
            match output.write_tag(Tag::new(num, WireType::LengthDelimited)) {
                Ok(()) => {},
                Err(e) => return Err(e),
            }
            let len = match y.calculate_size() {
                Some(len) => len,
                None => return Err(WriteError::ValueTooLarge),
            };
            proof {
                lemma_varint_roundtrip(len@ as u64);
            }
            match output.write_length(len) {
                Ok(()) => {},
                Err(e) => return Err(e),
            }
            y.write_to(output)
        },
        None => Ok(()),
    }
}

impl ExtensionRangeOptions {
    /// Gets the unknown fields of the message.
    pub fn unknown_fields(&self) -> (r: &UnknownFieldSet)
        ensures
            r@ == self@.unknown_fields,
    {
        &self.unknown_fields
    }

    /// Gets the unknown fields of the message for changing them.
    pub fn unknown_fields_mut(&mut self) -> (r: &mut UnknownFieldSet)
        ensures
            (*r)@ == old(self)@.unknown_fields,
            final(self)@ == (ExtensionRangeOptionsView { unknown_fields: (*final(r))@, ..old(self)@ }),
    {
        &mut self.unknown_fields
    }

    /// Returns whether the message is initialized: whether all its required fields are set.
    pub fn is_initialized(&self) -> (r: bool)
        ensures
            r,
    {
        if !crate::is_initialized(&self.uninterpreted_option) {
            return false;
        }
        true
    }

    /// Calculates the size of the message as it is written: `None` if a part cannot be
    /// written or the size does not fit in a length.
    #[verifier::spinoff_prover]
    pub fn calculate_size(&self) -> (r: Option<Length>)
        ensures
            opt_length(r) == parts_size(extension_range_options_parts(self@)),
    {
        let ghost v = self@;
        let ghost all = extension_range_options_parts(v);
        let b0 = LengthBuilder::new();
        let ghost d0 = Seq::<(bool, Seq<u8>)>::empty();
        proof {
            reveal(extension_range_options_parts);
            assert(all =~= d0 + all);
        }
        let ghost p1 = uninterpreted_option_seq_parts(999u32, v.uninterpreted_option);
        let ghost rest1 = set_parts(v.unknown_fields);
        proof {
            assert(all == d0 + (p1 + rest1));
            assert(d0 + (p1 + rest1) =~= d0 + p1 + rest1);
        }
        let r1 = uninterpreted_option_values_size(&self.uninterpreted_option, b0, FieldNumber::new_unchecked(999));
        proof {
            lemma_size_chain(0, d0, p1, Some(b0), r1);
            if r1 is None {
                lemma_size_chain(0, d0 + p1, rest1, r1, r1);
            }
        }
        let b1 = match r1 {
            Some(b) => b,
            None => return None,
        };
        let ghost d1 = d0 + p1;
        let ghost p2 = set_parts(v.unknown_fields);
        let ghost rest2 = Seq::<(bool, Seq<u8>)>::empty();
        proof {
            assert(all == d1 + p2);
            assert(p2 + rest2 =~= p2);
            assert(d1 + (p2 + rest2) =~= d1 + p2 + rest2);
        }
        let r2 = self.unknown_fields.calculate_size(b1);
        proof {
            lemma_size_chain(0, d1, p2, Some(b1), r2);
            if r2 is None {
                lemma_size_chain(0, d1 + p2, rest2, r2, r2);
            }
        }
        let b2 = match r2 {
            Some(b) => b,
            None => return None,
        };
        let ghost d2 = d1 + p2;
        Some(b2.build())
    }

    /// Writes the message to the writer: its fields that are set, in field number order, then
    /// its unknown fields.
    #[verifier::spinoff_prover]
    pub fn write_to(&self, output: &mut CodedWriter) -> (r: WriteResult)
        ensures
            (final(output).written(), r) == parts_written(old(output).written(), old(output).capacity(), extension_range_options_parts(self@)),
            final(output).capacity() == old(output).capacity(),
            (*final(final(output).target()))@ == (*final(old(output).target()))@,
    {
        let ghost v = self@;
        let ghost all = extension_range_options_parts(v);
        let ghost start = output.written();
        let ghost cap = output.capacity();
        let ghost d0 = Seq::<(bool, Seq<u8>)>::empty();
        proof {
            reveal(extension_range_options_parts);
            assert(all =~= d0 + all);
        }
        let ghost p1 = uninterpreted_option_seq_parts(999u32, v.uninterpreted_option);
        let ghost rest1 = set_parts(v.unknown_fields);
        proof {
            assert(all == d0 + (p1 + rest1));
            assert(d0 + (p1 + rest1) =~= d0 + p1 + rest1);
            lemma_parts_written_append(start, cap, d0, p1);
            lemma_parts_written_append(start, cap, d0 + p1, rest1);
        }
        match write_uninterpreted_option_values(&self.uninterpreted_option, output, FieldNumber::new_unchecked(999)) {
            Ok(()) => {},
            Err(e) => return Err(e),
        }
        let ghost d1 = d0 + p1;
        let ghost p2 = set_parts(v.unknown_fields);
        let ghost rest2 = Seq::<(bool, Seq<u8>)>::empty();
        proof {
            assert(all == d1 + p2);
            assert(p2 + rest2 =~= p2);
            assert(d1 + (p2 + rest2) =~= d1 + p2 + rest2);
            lemma_parts_written_append(start, cap, d1, p2);
            lemma_parts_written_append(start, cap, d1 + p2, rest2);
        }
        match self.unknown_fields.write_to(output) {
            Ok(()) => {},
            Err(e) => return Err(e),
        }
        let ghost d2 = d1 + p2;
        proof {
            assert(all =~= d2 + Seq::<(bool, Seq<u8>)>::empty());
            assert(all == d2);
            lemma_ok_unit(parts_written(start, cap, all).1);
        }
        Ok(())
    }

    /// Reads the value of the field whose tag value `t` was just read into the message.
    #[verifier::spinoff_prover]
    fn merge_field(&mut self, t: u32, input: &mut CodedReader) -> (r: ReadResult<()>)
        ensures
            match extension_range_options_field_read(old(self)@, t, old(input).available(), old(input).depth(), old(input).recursion_limit(), skips(*old(input)), old(input).end_group_view()) {
                Ok((m, v2)) => r is Ok && final(self)@ == v2 && m >= 0 && final(input).position()
                    == old(input).position() + m && same_state(*old(input), *final(input)),
                Err(e) => r == Err::<(), ReadError>(e) && same_config(*old(input), *final(input)),
            },
    {
        let rem0 = input.remaining();
        let ghost rest = input.available();
        if t == 7994u32 {
            proof {
                lemma_length_delimited_read_len(rest);
            }
            input.set_last_tag(Some(Tag::new(FieldNumber::new_unchecked(999), WireType::LengthDelimited)));
            let mut y = UninterpretedOption::default();
            match merge_uninterpreted_option_delimited(&mut y, input) {
                Ok(()) => {},
                Err(e) => return Err(e),
            }
            let ghost old_values = self.uninterpreted_option@;
            self.uninterpreted_option.push(y);
            proof {
                assert(self.uninterpreted_option@.subrange(0, self.uninterpreted_option@.len() - 1) =~= old_values);
            }
        } else {
            let tag = match Tag::try_from(t) {
                Ok(tag) => tag,
                Err(_) => return Err(ReadError::InvalidTag(t)),
            };
            input.set_last_tag(Some(tag));
            match self.unknown_fields.try_add_field_from(input) {
                Ok(TryRead::Consumed) => {},
                Ok(TryRead::Yielded) => match input.skip() {
                    Ok(()) => {},
                    Err(e) => return Err(e),
                },
                Err(e) => return Err(e),
            }
        }
        let rem1 = input.remaining();
        Ok(())
    }

    /// Merges the message with fields read from the reader, up to its limit. Scalar fields
    /// read replace those set, message fields are merged, repeated fields are added to,
    /// and unknown fields are stored or skipped as the reader says. On an error the message
    /// may hold some of the fields read before it.
    #[verifier::spinoff_prover]
    #[verifier::rlimit(50)]
    pub fn merge_from(&mut self, input: &mut CodedReader) -> (r: ReadResult<()>)
        ensures
            merge_outcome(extension_range_options_merged(old(self)@, old(input).available(), old(input).depth(), old(input).recursion_limit(), skips(*old(input)), old(input).end_group_view()), final(self)@, *old(input), *final(input), r),
    {
        let rem0 = input.remaining();
        let ghost start = *input;
        let ghost total = extension_range_options_merged(self@, input.available(), input.depth(), input.recursion_limit(), skips(*input), input.end_group_view());
        loop
            invariant
                start == *old(input),
                same_state(start, *input),
                0 <= start.position() <= input.position(),
                input.limit_end() <= input.input().len(),
                total == extension_range_options_merged(old(self)@, start.available(), start.depth(), start.recursion_limit(), skips(start), start.end_group_view()),
                total == extension_range_options_merged(self@, input.available(), start.depth(), start.recursion_limit(), skips(start), start.end_group_view()),
            decreases input.available().len(),
        {
            let ghost s = input.available();
            let ghost before = *input;
            let ghost v = self@;
            let t = match input.read_field() {
                Ok(Some(t)) => t,
                Ok(None) => return Ok(()),
                Err(e) => return Err(e),
            };
            let rem1 = input.remaining();
            let ghost n = input.position() - before.position();
            proof {
                lemma_varint_read_len(s);
                assert(input.available() =~= s.skip(n));
            }
            let ghost mid = *input;
            match self.merge_field(t, input) {
                Ok(()) => {},
                Err(e) => return Err(e),
            }
            let rem2 = input.remaining();
            proof {
                let m = input.position() - mid.position();
                assert(input.available() =~= s.skip(n + m));
            }
        }
    }
}

impl crate::Message for ExtensionRangeOptions {
    open spec fn merged(v: ExtensionRangeOptionsView, s: Seq<u8>, depth: nat, limit: nat, skip: bool, eg: Option<Tag>) -> ReadResult<ExtensionRangeOptionsView> {
        extension_range_options_merged(v, s, depth, limit, skip, eg)
    }

    open spec fn parts(v: ExtensionRangeOptionsView) -> Seq<(bool, Seq<u8>)> {
        extension_range_options_parts(v)
    }

    open spec fn initialized(v: ExtensionRangeOptionsView) -> bool {
        true
    }

    open spec fn unknown_fields_of(v: ExtensionRangeOptionsView) -> Seq<(u32, Seq<FieldValue>)> {
        v.unknown_fields
    }

    open spec fn with_unknown_fields(v: ExtensionRangeOptionsView, u: Seq<(u32, Seq<FieldValue>)>) -> ExtensionRangeOptionsView {
        ExtensionRangeOptionsView { unknown_fields: u, ..v }
    }

    fn merge_from(&mut self, input: &mut CodedReader) -> (r: ReadResult<()>) {
        ExtensionRangeOptions::merge_from(self, input)
    }

    fn calculate_size(&self) -> (r: Option<Length>) {
        ExtensionRangeOptions::calculate_size(self)
    }

    fn write_to(&self, output: &mut CodedWriter) -> (r: WriteResult) {
        ExtensionRangeOptions::write_to(self, output)
    }

    fn is_initialized(&self) -> (r: bool) {
        ExtensionRangeOptions::is_initialized(self)
    }

    fn unknown_fields(&self) -> (r: &UnknownFieldSet) {
        ExtensionRangeOptions::unknown_fields(self)
    }

    fn unknown_fields_mut(&mut self) -> (r: &mut UnknownFieldSet) {
        ExtensionRangeOptions::unknown_fields_mut(self)
    }
}

impl DebugMessage for ExtensionRangeOptions {
    open spec fn spec_full_name() -> Seq<char> {
        "google.protobuf.ExtensionRangeOptions"@
    }

    open spec fn spec_name() -> Seq<char> {
        "ExtensionRangeOptions"@
    }

    fn full_name() -> (r: &'static str) {
        "google.protobuf.ExtensionRangeOptions"
    }

    fn name() -> (r: &'static str) {
        "ExtensionRangeOptions"
    }
}

/// Whether `t` is the tag of a field a `ExtensionRangeOptions` reads.
pub open spec fn extension_range_options_known_tag(t: u32) -> bool {
    t == 7994u32
}

/// Whether a `ExtensionRangeOptions` is read back as it is written, at nesting depth `depth` of a reader with
/// recursion limit `limit`: its messages are read back as written one level deeper, within
/// the limit; and its unknown fields are read back as written, none with the tag of one of
/// its fields.
pub open spec fn extension_range_options_roundtrips(v: ExtensionRangeOptionsView, depth: nat, limit: nat) -> bool
{
    &&& (v.uninterpreted_option.len() > 0 ==> depth < limit)
    &&& forall|i: int| 0 <= i < v.uninterpreted_option.len() ==> uninterpreted_option_roundtrips(#[trigger] v.uninterpreted_option[i], depth + 1, limit)
    &&& set_readable(v.unknown_fields)
    &&& forall|k: int| 0 <= k < set_pairs(v.unknown_fields).len() ==> !extension_range_options_known_tag(tag_value(
        #[trigger] set_pairs(v.unknown_fields)[k].0,
        field_value_wire_type(set_pairs(v.unknown_fields)[k].1),
    ))
}

/// Reading a `ExtensionRangeOptions` field whose tag is read from the front of `s` and whose value is read after
/// it continues with the rest of `s`.
proof fn lemma_extension_range_options_step(v: ExtensionRangeOptionsView, s: Seq<u8>, k: int, t: u32, m: int, v2: ExtensionRangeOptionsView, depth: nat, limit: nat)
    requires
        varint_read(s) == Ok::<(int, u64), ReadError>((k, t as u64)),
        1 <= k <= s.len(),
        extension_range_options_field_read(v, t, s.skip(k), depth, limit, false, None) == Ok::<(int, ExtensionRangeOptionsView), ReadError>((m, v2)),
        0 <= m,
        k + m <= s.len(),
    ensures
        extension_range_options_merged(v, s, depth, limit, false, None) == extension_range_options_merged(v2, s.skip(k + m), depth, limit, false, None),
{
    assert((t as u64) as u32 == t);
}

/// Reading the entries of `UninterpretedOption` values written as field `uninterpreted_option` of a `ExtensionRangeOptions` adds the values.
#[verifier::spinoff_prover]
#[verifier::rlimit(60)]
proof fn lemma_extension_range_options_read_uninterpreted_option(v: ExtensionRangeOptionsView, ys: Seq<UninterpretedOptionView>, rest: Seq<u8>, depth: nat, limit: nat)
    requires
        parts_encodable(uninterpreted_option_seq_parts(999u32, ys)),
        ys.len() > 0 ==> depth < limit,
        forall|i: int| 0 <= i < ys.len() ==> uninterpreted_option_roundtrips(#[trigger] ys[i], depth + 1, limit),
    ensures
        extension_range_options_merged(v, parts_bytes(uninterpreted_option_seq_parts(999u32, ys)) + rest, depth, limit, false, None) == extension_range_options_merged(
            ExtensionRangeOptionsView { uninterpreted_option: v.uninterpreted_option + ys, ..v },
            rest,
            depth, limit, false, None,
        ),
    decreases ys.len(),
{
    if ys.len() == 0 {
        assert(parts_bytes(uninterpreted_option_seq_parts(999u32, ys)) + rest =~= rest);
        assert(v.uninterpreted_option + ys =~= v.uninterpreted_option);
    } else {
        let y = ys[0];
        let tail = ys.drop_first();
        assert forall|i: int| 0 <= i < tail.len() implies uninterpreted_option_roundtrips(#[trigger] tail[i], depth + 1, limit) by {
            assert(tail[i] == ys[i + 1]);
        }
        lemma_uninterpreted_option_seq_parts_front(999u32, ys);
        let ep = entry_parts(999u32, uninterpreted_option_parts(y));
        lemma_parts_encodable_two(ep, uninterpreted_option_seq_parts(999u32, tail));
        lemma_parts_bytes_append(ep, uninterpreted_option_seq_parts(999u32, tail));
        assert(ep[1].0);
        let after = parts_bytes(uninterpreted_option_seq_parts(999u32, tail)) + rest;
        let s = parts_bytes(uninterpreted_option_seq_parts(999u32, ys)) + rest;
        assert(s =~= parts_bytes(ep) + after);
        lemma_entry_bytes_read(999u32, uninterpreted_option_parts(y), after);
        lemma_tag_value(999u32, WireType::LengthDelimited);
        lemma_uninterpreted_option_roundtrip(y, depth + 1, limit);
        let hl = parts_bytes(ep).len() as int;
        let k = varint_len(7994u64) as int;
        let v2 = ExtensionRangeOptionsView { uninterpreted_option: v.uninterpreted_option.push(y), ..v };
        lemma_extension_range_options_step(v, s, k, 7994u32, hl - k, v2, depth, limit);
        lemma_extension_range_options_read_uninterpreted_option(v2, tail, rest, depth, limit);
        assert(v.uninterpreted_option.push(y) + tail =~= v.uninterpreted_option + ys);
    }
}

/// Reading unknown field values written one after the other into a `ExtensionRangeOptions`, none with the tag
/// of one of its fields, adds them to its unknown fields.
proof fn lemma_extension_range_options_read_unknown(v: ExtensionRangeOptionsView, ps: Seq<(u32, FieldValue)>, rest: Seq<u8>, depth: nat, limit: nat)
    requires
        forall|k: int| 0 <= k < ps.len() ==> value_readable(#[trigger] ps[k].0, ps[k].1) && !extension_range_options_known_tag(
            tag_value(ps[k].0, field_value_wire_type(ps[k].1)),
        ),
    ensures
        extension_range_options_merged(v, parts_bytes(pairs_parts(ps)) + rest, depth, limit, false, None) == extension_range_options_merged(
            ExtensionRangeOptionsView { unknown_fields: push_pairs(v.unknown_fields, ps), ..v },
            rest,
            depth, limit, false, None,
        ),
    decreases ps.len(),
{
    if ps.len() == 0 {
        assert(parts_bytes(pairs_parts(ps)) + rest =~= rest);
    } else {
        let n = ps[0].0;
        let fv = ps[0].1;
        let tail = ps.drop_first();
        assert forall|k: int| 0 <= k < tail.len() implies value_readable(#[trigger] tail[k].0, tail[k].1) && !extension_range_options_known_tag(
            tag_value(tail[k].0, field_value_wire_type(tail[k].1)),
        ) by {
            assert(tail[k] == ps[k + 1]);
        }
        assert(value_readable(ps[0].0, ps[0].1));
        lemma_parts_bytes_append(field_value_parts(n, fv), pairs_parts(tail));
        let after = parts_bytes(pairs_parts(tail)) + rest;
        let s = parts_bytes(pairs_parts(ps)) + rest;
        assert(s =~= parts_bytes(field_value_parts(n, fv)) + after);
        lemma_read_value_bytes(n, fv, after);
        let t = tag_value(n, field_value_wire_type(fv));
        let hl = parts_bytes(field_value_parts(n, fv)).len() as int;
        let k = varint_len(t as u64) as int;
        let v2 = ExtensionRangeOptionsView { unknown_fields: view_push(v.unknown_fields, n, fv), ..v };
        lemma_extension_range_options_step(v, s, k, t, hl - k, v2, depth, limit);
        lemma_extension_range_options_read_unknown(v2, tail, rest, depth, limit);
    }
}

/// The writability of the parts of a `ExtensionRangeOptions` is that of each field's parts.
proof fn lemma_extension_range_options_parts_encodable(v: ExtensionRangeOptionsView)
    ensures
        parts_encodable(extension_range_options_parts(v)) == (parts_encodable(uninterpreted_option_seq_parts(999u32, v.uninterpreted_option)) && parts_encodable(set_parts(v.unknown_fields))),
{
    reveal(extension_range_options_parts);
    let p0 = uninterpreted_option_seq_parts(999u32, v.uninterpreted_option);
    let p1 = set_parts(v.unknown_fields);
    let q1 = p1;
    let q0 = p0 + q1;
    lemma_parts_encodable_two(p0, q1);
    assert(extension_range_options_parts(v) == q0);
}

/// The bytes of the parts of a `ExtensionRangeOptions` are those of each field's parts, one after the other.
proof fn lemma_extension_range_options_parts_bytes(v: ExtensionRangeOptionsView)
    ensures
        parts_bytes(extension_range_options_parts(v)) == parts_bytes(uninterpreted_option_seq_parts(999u32, v.uninterpreted_option)) + parts_bytes(set_parts(v.unknown_fields)),
{
    reveal(extension_range_options_parts);
    let p0 = uninterpreted_option_seq_parts(999u32, v.uninterpreted_option);
    let p1 = set_parts(v.unknown_fields);
    let q1 = p1;
    let q0 = p0 + q1;
    lemma_parts_bytes_append(p0, q1);
    assert(extension_range_options_parts(v) == q0);
}

/// The message a `ExtensionRangeOptions` `d` becomes when `v` is merged into it: each field `v` holds once
/// replaces the one `d` holds, the values of each repeated field of `v` follow those of `d`,
/// and the unknown fields of `v` are added to those of `d`, field number by field number.
pub open spec fn extension_range_options_merge_view(d: ExtensionRangeOptionsView, v: ExtensionRangeOptionsView) -> ExtensionRangeOptionsView {
    ExtensionRangeOptionsView { uninterpreted_option: d.uninterpreted_option + v.uninterpreted_option, unknown_fields: view_merge(d.unknown_fields, v.unknown_fields) }
}

/// Reading the bytes of the parts of a `ExtensionRangeOptions` `v`, field by field, into `d` merges `v` into `d`.
#[verifier::spinoff_prover]
#[verifier::rlimit(60)]
proof fn lemma_extension_range_options_merge_all(d: ExtensionRangeOptionsView, v: ExtensionRangeOptionsView, depth: nat, limit: nat)
    requires
        parts_encodable(uninterpreted_option_seq_parts(999u32, v.uninterpreted_option)),
        extension_range_options_roundtrips(v, depth, limit),
        parts_bytes(extension_range_options_parts(v)) == parts_bytes(uninterpreted_option_seq_parts(999u32, v.uninterpreted_option)) + parts_bytes(set_parts(v.unknown_fields)),
    ensures
        extension_range_options_merged(d, parts_bytes(extension_range_options_parts(v)), depth, limit, false, None) == Ok::<ExtensionRangeOptionsView, ReadError>(extension_range_options_merge_view(d, v)),
{
    let p0 = uninterpreted_option_seq_parts(999u32, v.uninterpreted_option);
    let p1 = set_parts(v.unknown_fields);
    let b0 = parts_bytes(p0);
    let b1 = parts_bytes(p1);
    let r1 = b1;
    let r0 = b0 + r1;
    let d0 = d;
    let d1 = ExtensionRangeOptionsView { uninterpreted_option: d.uninterpreted_option + v.uninterpreted_option, ..d0 };
    assert(extension_range_options_merged(d0, r0, depth, limit, false, None) == extension_range_options_merged(d1, r1, depth, limit, false, None)) by {
        lemma_extension_range_options_read_uninterpreted_option(d0, v.uninterpreted_option, r1, depth, limit);
        assert(ExtensionRangeOptionsView { uninterpreted_option: d0.uninterpreted_option + v.uninterpreted_option, ..d0 } == d1);
    }
    let ps = set_pairs(v.unknown_fields);
    assert(extension_range_options_merged(d1, r1, depth, limit, false, None) == Ok::<ExtensionRangeOptionsView, ReadError>(extension_range_options_merge_view(d, v))) by {
        lemma_set_pairs(v.unknown_fields, d.unknown_fields);
        lemma_entries_readable(v.unknown_fields);
        assert forall|k: int| 0 <= k < ps.len() implies value_readable(#[trigger] ps[k].0, ps[k].1) && !extension_range_options_known_tag(
            tag_value(ps[k].0, field_value_wire_type(ps[k].1)),
        ) by {
            assert(!extension_range_options_known_tag(tag_value(set_pairs(v.unknown_fields)[k].0, field_value_wire_type(set_pairs(v.unknown_fields)[k].1))));
        }
        lemma_extension_range_options_read_unknown(d1, ps, Seq::empty(), depth, limit);
        assert(b1 + Seq::<u8>::empty() =~= b1);
        let dl = ExtensionRangeOptionsView { unknown_fields: push_pairs(d1.unknown_fields, ps), ..d1 };
        assert(dl == extension_range_options_merge_view(d, v));
    }
}

/// Reading the bytes of the parts of a `ExtensionRangeOptions`, field by field, gives the message back.
proof fn lemma_extension_range_options_read_all(v: ExtensionRangeOptionsView, depth: nat, limit: nat)
    requires
        parts_encodable(uninterpreted_option_seq_parts(999u32, v.uninterpreted_option)),
        extension_range_options_roundtrips(v, depth, limit),
        parts_bytes(extension_range_options_parts(v)) == parts_bytes(uninterpreted_option_seq_parts(999u32, v.uninterpreted_option)) + parts_bytes(set_parts(v.unknown_fields)),
    ensures
        extension_range_options_merged(extension_range_options_default(), parts_bytes(extension_range_options_parts(v)), depth, limit, false, None) == Ok::<ExtensionRangeOptionsView, ReadError>(v),
{
    lemma_extension_range_options_merge_all(extension_range_options_default(), v, depth, limit);
    lemma_entries_readable(v.unknown_fields);
    lemma_merge_into_empty(v.unknown_fields);
    assert(Seq::empty() + v.uninterpreted_option =~= v.uninterpreted_option);
    assert(extension_range_options_merge_view(extension_range_options_default(), v) == v);
}

/// Merging what a `ExtensionRangeOptions` `v` writes into a message `d` merges `v` into `d`: each field `v`
/// holds replaces the one `d` holds, repeated values follow those `d` holds, and unknown fields
/// are added to those of `d`, where `d` holds none of the message fields `v` holds (those are
/// merged into each other), at nesting depth `depth` of a reader with recursion limit `limit`
/// that keeps unknown fields, outside any group, where `v` is read back as written.
pub proof fn lemma_extension_range_options_merge_written(d: ExtensionRangeOptionsView, v: ExtensionRangeOptionsView, depth: nat, limit: nat)
    requires
        parts_encodable(extension_range_options_parts(v)),
        extension_range_options_roundtrips(v, depth, limit),
    ensures
        extension_range_options_merged(d, parts_bytes(extension_range_options_parts(v)), depth, limit, false, None) == Ok::<ExtensionRangeOptionsView, ReadError>(extension_range_options_merge_view(d, v)),
{
    lemma_extension_range_options_parts_encodable(v);
    lemma_extension_range_options_parts_bytes(v);
    lemma_extension_range_options_merge_all(d, v, depth, limit);
}

/// A `ExtensionRangeOptions` is read back as it is written: merging the bytes of its parts into a default
/// message, at nesting depth `depth` of a reader with recursion limit `limit` that keeps
/// unknown fields, outside any group, gives the message back, where it is read back as written.
pub proof fn lemma_extension_range_options_roundtrip(v: ExtensionRangeOptionsView, depth: nat, limit: nat)
    requires
        parts_encodable(extension_range_options_parts(v)),
        extension_range_options_roundtrips(v, depth, limit),
    ensures
        extension_range_options_merged(extension_range_options_default(), parts_bytes(extension_range_options_parts(v)), depth, limit, false, None) == Ok::<ExtensionRangeOptionsView, ReadError>(v),
{
    lemma_extension_range_options_parts_encodable(v);
    lemma_extension_range_options_parts_bytes(v);
    lemma_extension_range_options_read_all(v, depth, limit);
}

/// The `FieldDescriptorProto` message of `descriptor.proto`.
#[derive(Clone, Debug)]
pub struct FieldDescriptorProto {
    name: Option<String>,
    number: Option<i32>,
    label: Option<Label>,
    field_type: Option<Type>,
    type_name_text: Option<String>,
    extendee: Option<String>,
    default_value: Option<String>,
    oneof_index: Option<i32>,
    json_name: Option<String>,
    options: Option<FieldOptions>,
    unknown_fields: UnknownFieldSet,
}

/// The view of a `FieldDescriptorProto`: its fields, and its unknown fields.
pub struct FieldDescriptorProtoView {
    /// The `name` field.
    pub name: Option<Seq<char>>,
    /// The `number` field.
    pub number: Option<i32>,
    /// The `label` field.
    pub label: Option<i32>,
    /// The `type` field.
    pub field_type: Option<i32>,
    /// The `type_name` field.
    pub type_name_text: Option<Seq<char>>,
    /// The `extendee` field.
    pub extendee: Option<Seq<char>>,
    /// The `default_value` field.
    pub default_value: Option<Seq<char>>,
    /// The `oneof_index` field.
    pub oneof_index: Option<i32>,
    /// The `json_name` field.
    pub json_name: Option<Seq<char>>,
    /// The `options` field.
    pub options: Option<FieldOptionsView>,
    /// The unknown fields.
    pub unknown_fields: Seq<(u32, Seq<FieldValue>)>,
}

/// The view of a `FieldDescriptorProto` value.
pub closed spec fn field_descriptor_proto_view(m: FieldDescriptorProto) -> FieldDescriptorProtoView
{
    FieldDescriptorProtoView {
        name: opt_view(m.name),
        number: m.number,
        label: opt_view(m.label),
        field_type: opt_view(m.field_type),
        type_name_text: opt_view(m.type_name_text),
        extendee: opt_view(m.extendee),
        default_value: opt_view(m.default_value),
        oneof_index: m.oneof_index,
        json_name: opt_view(m.json_name),
        options: match m.options { Some(x) => Some(field_options_view(x)), None => None },
        unknown_fields: m.unknown_fields@,
    }
}

/// The views of a run of `FieldDescriptorProto` values.
pub closed spec fn field_descriptor_proto_seq_view(s: Seq<FieldDescriptorProto>) -> Seq<FieldDescriptorProtoView>
    decreases s,
{
    if s.len() == 0 {
        Seq::empty()
    } else {
        field_descriptor_proto_seq_view(s.subrange(0, s.len() - 1)).push(field_descriptor_proto_view(s[s.len() - 1]))
    }
}

/// The view of a `FieldDescriptorProto` with no field set.
pub open spec fn field_descriptor_proto_default() -> FieldDescriptorProtoView {
    FieldDescriptorProtoView {
        name: None,
        number: None,
        label: None,
        field_type: None,
        type_name_text: None,
        extendee: None,
        default_value: None,
        oneof_index: None,
        json_name: None,
        options: None,
        unknown_fields: Seq::empty(),
    }
}

impl View for FieldDescriptorProto {
    type V = FieldDescriptorProtoView;

    open spec fn view(&self) -> FieldDescriptorProtoView {
        field_descriptor_proto_view(*self)
    }
}

impl Default for FieldDescriptorProto {
    /// A message with no field set.
    fn default() -> (r: FieldDescriptorProto)
        ensures
            r@ == field_descriptor_proto_default(),
    {
        let r = FieldDescriptorProto {
            name: None,
            number: None,
            label: None,
            field_type: None,
            type_name_text: None,
            extendee: None,
            default_value: None,
            oneof_index: None,
            json_name: None,
            options: None,
            unknown_fields: UnknownFieldSet::new(),
        };
        proof {
            assert(r@ =~= field_descriptor_proto_default());
        }
        r
    }
}

impl FieldDescriptorProto {
    /// Gets the `name` field, or its default, the empty string.
    pub fn name(&self) -> (r: &str)
        ensures
            r@ == text_or_empty(self@.name),
    {
        proof {
            reveal_strlit("");
        }
        match &self.name {
            Some(s) => s.as_str(),
            None => "",
        }
    }

    /// Gets the `name` field if it is set.
    pub fn name_option(&self) -> (r: Option<&String>)
        ensures
            opt_ref_view(r) == self@.name,
    {
        self.name.as_ref()
    }

    /// Gets the `name` field for changing it, setting it to its type's default first if it
    /// is not set.
    pub fn name_mut(&mut self) -> (r: &mut String)
        ensures
            (*r)@ == old(self)@.name.unwrap_or(Seq::<char>::empty()),
            final(self)@ == (FieldDescriptorProtoView { name: Some((*final(r))@), ..old(self)@ }),
    {
        self.name.get_or_insert(String::new())
    }

    /// Returns whether the `name` field is set.
    pub fn has_name(&self) -> (r: bool)
        ensures
            r == self@.name is Some,
    {
        self.name.is_some()
    }

    /// Sets the `name` field.
    pub fn set_name(&mut self, value: String)
        ensures
            final(self)@ == (FieldDescriptorProtoView { name: Some(value@), ..old(self)@ }),
    {
        self.name = Some(value);
    }

    /// Takes the `name` field out, leaving it unset.
    pub fn take_name(&mut self) -> (r: Option<String>)
        ensures
            opt_view(r) == old(self)@.name,
            final(self)@ == (FieldDescriptorProtoView { name: None, ..old(self)@ }),
    {
        self.name.take()
    }

    /// Clears the `name` field, leaving it unset.
    pub fn clear_name(&mut self)
        ensures
            final(self)@ == (FieldDescriptorProtoView { name: None, ..old(self)@ }),
    {
        self.name = None;
    }

    /// Gets the `number` field, or its default, `0`.
    pub fn number(&self) -> (r: i32)
        ensures
            r == self@.number.unwrap_or(0i32),
    {
        match self.number {
            Some(v) => v,
            None => 0i32,
        }
    }

    /// Gets the `number` field if it is set.
    pub fn number_option(&self) -> (r: Option<&i32>)
        ensures
            opt_ref_view(r) == self@.number,
    {
        self.number.as_ref()
    }

    /// Gets the `number` field for changing it, setting it to its type's default first if it
    /// is not set.
    pub fn number_mut(&mut self) -> (r: &mut i32)
        ensures
            (*r)@ == old(self)@.number.unwrap_or(0i32),
            final(self)@ == (FieldDescriptorProtoView { number: Some((*final(r))@), ..old(self)@ }),
    {
        self.number.get_or_insert(0i32)
    }

    /// Returns whether the `number` field is set.
    pub fn has_number(&self) -> (r: bool)
        ensures
            r == self@.number is Some,
    {
        self.number.is_some()
    }

    /// Sets the `number` field.
    pub fn set_number(&mut self, value: i32)
        ensures
            final(self)@ == (FieldDescriptorProtoView { number: Some(value@), ..old(self)@ }),
    {
        self.number = Some(value);
    }

    /// Takes the `number` field out, leaving it unset.
    pub fn take_number(&mut self) -> (r: Option<i32>)
        ensures
            opt_view(r) == old(self)@.number,
            final(self)@ == (FieldDescriptorProtoView { number: None, ..old(self)@ }),
    {
        self.number.take()
    }

    /// Clears the `number` field, leaving it unset.
    pub fn clear_number(&mut self)
        ensures
            final(self)@ == (FieldDescriptorProtoView { number: None, ..old(self)@ }),
    {
        self.number = None;
    }

    /// Gets the `label` field, or its default, `LABEL_OPTIONAL`.
    pub fn label(&self) -> (r: Label)
        ensures
            r@ == self@.label.unwrap_or(1i32),
    {
        match self.label {
            Some(v) => v,
            None => Label::LABEL_OPTIONAL(),
        }
    }

    /// Gets the `label` field if it is set.
    pub fn label_option(&self) -> (r: Option<&Label>)
        ensures
            opt_ref_view(r) == self@.label,
    {
        self.label.as_ref()
    }

    /// Gets the `label` field for changing it, setting it to its type's default first if it
    /// is not set.
    pub fn label_mut(&mut self) -> (r: &mut Label)
        ensures
            (*r)@ == old(self)@.label.unwrap_or(0i32),
            final(self)@ == (FieldDescriptorProtoView { label: Some((*final(r))@), ..old(self)@ }),
    {
        self.label.get_or_insert(Label(0))
    }

    /// Returns whether the `label` field is set.
    pub fn has_label(&self) -> (r: bool)
        ensures
            r == self@.label is Some,
    {
        self.label.is_some()
    }

    /// Sets the `label` field.
    pub fn set_label(&mut self, value: Label)
        ensures
            final(self)@ == (FieldDescriptorProtoView { label: Some(value@), ..old(self)@ }),
    {
        self.label = Some(value);
    }

    /// Takes the `label` field out, leaving it unset.
    pub fn take_label(&mut self) -> (r: Option<Label>)
        ensures
            opt_view(r) == old(self)@.label,
            final(self)@ == (FieldDescriptorProtoView { label: None, ..old(self)@ }),
    {
        self.label.take()
    }

    /// Clears the `label` field, leaving it unset.
    pub fn clear_label(&mut self)
        ensures
            final(self)@ == (FieldDescriptorProtoView { label: None, ..old(self)@ }),
    {
        self.label = None;
    }

    /// Gets the `type` field, or its default, `TYPE_DOUBLE`.
    pub fn field_type(&self) -> (r: Type)
        ensures
            r@ == self@.field_type.unwrap_or(1i32),
    {
        match self.field_type {
            Some(v) => v,
            None => Type::TYPE_DOUBLE(),
        }
    }

    /// Gets the `type` field if it is set.
    pub fn type_option(&self) -> (r: Option<&Type>)
        ensures
            opt_ref_view(r) == self@.field_type,
    {
        self.field_type.as_ref()
    }

    /// Gets the `type` field for changing it, setting it to its type's default first if it
    /// is not set.
    pub fn type_mut(&mut self) -> (r: &mut Type)
        ensures
            (*r)@ == old(self)@.field_type.unwrap_or(0i32),
            final(self)@ == (FieldDescriptorProtoView { field_type: Some((*final(r))@), ..old(self)@ }),
    {
        self.field_type.get_or_insert(Type(0))
    }

    /// Returns whether the `type` field is set.
    pub fn has_type(&self) -> (r: bool)
        ensures
            r == self@.field_type is Some,
    {
        self.field_type.is_some()
    }

    /// Sets the `type` field.
    pub fn set_type(&mut self, value: Type)
        ensures
            final(self)@ == (FieldDescriptorProtoView { field_type: Some(value@), ..old(self)@ }),
    {
        self.field_type = Some(value);
    }

    /// Takes the `type` field out, leaving it unset.
    pub fn take_type(&mut self) -> (r: Option<Type>)
        ensures
            opt_view(r) == old(self)@.field_type,
            final(self)@ == (FieldDescriptorProtoView { field_type: None, ..old(self)@ }),
    {
        self.field_type.take()
    }

    /// Clears the `type` field, leaving it unset.
    pub fn clear_type(&mut self)
        ensures
            final(self)@ == (FieldDescriptorProtoView { field_type: None, ..old(self)@ }),
    {
        self.field_type = None;
    }

    /// Gets the `type_name` field, or its default, the empty string.
    pub fn type_name_text(&self) -> (r: &str)
        ensures
            r@ == text_or_empty(self@.type_name_text),
    {
        proof {
            reveal_strlit("");
        }
        match &self.type_name_text {
            Some(s) => s.as_str(),
            None => "",
        }
    }

    /// Gets the `type_name` field if it is set.
    pub fn type_name_option(&self) -> (r: Option<&String>)
        ensures
            opt_ref_view(r) == self@.type_name_text,
    {
        self.type_name_text.as_ref()
    }

    /// Gets the `type_name` field for changing it, setting it to its type's default first if it
    /// is not set.
    pub fn type_name_mut(&mut self) -> (r: &mut String)
        ensures
            (*r)@ == old(self)@.type_name_text.unwrap_or(Seq::<char>::empty()),
            final(self)@ == (FieldDescriptorProtoView { type_name_text: Some((*final(r))@), ..old(self)@ }),
    {
        self.type_name_text.get_or_insert(String::new())
    }

    /// Returns whether the `type_name` field is set.
    pub fn has_type_name(&self) -> (r: bool)
        ensures
            r == self@.type_name_text is Some,
    {
        self.type_name_text.is_some()
    }

    /// Sets the `type_name` field.
    pub fn set_type_name(&mut self, value: String)
        ensures
            final(self)@ == (FieldDescriptorProtoView { type_name_text: Some(value@), ..old(self)@ }),
    {
        self.type_name_text = Some(value);
    }

    /// Takes the `type_name` field out, leaving it unset.
    pub fn take_type_name(&mut self) -> (r: Option<String>)
        ensures
            opt_view(r) == old(self)@.type_name_text,
            final(self)@ == (FieldDescriptorProtoView { type_name_text: None, ..old(self)@ }),
    {
        self.type_name_text.take()
    }

    /// Clears the `type_name` field, leaving it unset.
    pub fn clear_type_name(&mut self)
        ensures
            final(self)@ == (FieldDescriptorProtoView { type_name_text: None, ..old(self)@ }),
    {
        self.type_name_text = None;
    }

    /// Gets the `extendee` field, or its default, the empty string.
    pub fn extendee(&self) -> (r: &str)
        ensures
            r@ == text_or_empty(self@.extendee),
    {
        proof {
            reveal_strlit("");
        }
        match &self.extendee {
            Some(s) => s.as_str(),
            None => "",
        }
    }

    /// Gets the `extendee` field if it is set.
    pub fn extendee_option(&self) -> (r: Option<&String>)
        ensures
            opt_ref_view(r) == self@.extendee,
    {
        self.extendee.as_ref()
    }

    /// Gets the `extendee` field for changing it, setting it to its type's default first if it
    /// is not set.
    pub fn extendee_mut(&mut self) -> (r: &mut String)
        ensures
            (*r)@ == old(self)@.extendee.unwrap_or(Seq::<char>::empty()),
            final(self)@ == (FieldDescriptorProtoView { extendee: Some((*final(r))@), ..old(self)@ }),
    {
        self.extendee.get_or_insert(String::new())
    }

    /// Returns whether the `extendee` field is set.
    pub fn has_extendee(&self) -> (r: bool)
        ensures
            r == self@.extendee is Some,
    {
        self.extendee.is_some()
    }

    /// Sets the `extendee` field.
    pub fn set_extendee(&mut self, value: String)
        ensures
            final(self)@ == (FieldDescriptorProtoView { extendee: Some(value@), ..old(self)@ }),
    {
        self.extendee = Some(value);
    }

    /// Takes the `extendee` field out, leaving it unset.
    pub fn take_extendee(&mut self) -> (r: Option<String>)
        ensures
            opt_view(r) == old(self)@.extendee,
            final(self)@ == (FieldDescriptorProtoView { extendee: None, ..old(self)@ }),
    {
        self.extendee.take()
    }

    /// Clears the `extendee` field, leaving it unset.
    pub fn clear_extendee(&mut self)
        ensures
            final(self)@ == (FieldDescriptorProtoView { extendee: None, ..old(self)@ }),
    {
        self.extendee = None;
    }

    /// Gets the `default_value` field, or its default, the empty string.
    pub fn default_value(&self) -> (r: &str)
        ensures
            r@ == text_or_empty(self@.default_value),
    {
        proof {
            reveal_strlit("");
        }
        match &self.default_value {
            Some(s) => s.as_str(),
            None => "",
        }
    }

    /// Gets the `default_value` field if it is set.
    pub fn default_value_option(&self) -> (r: Option<&String>)
        ensures
            opt_ref_view(r) == self@.default_value,
    {
        self.default_value.as_ref()
    }

    /// Gets the `default_value` field for changing it, setting it to its type's default first if it
    /// is not set.
    pub fn default_value_mut(&mut self) -> (r: &mut String)
        ensures
            (*r)@ == old(self)@.default_value.unwrap_or(Seq::<char>::empty()),
            final(self)@ == (FieldDescriptorProtoView { default_value: Some((*final(r))@), ..old(self)@ }),
    {
        self.default_value.get_or_insert(String::new())
    }

    /// Returns whether the `default_value` field is set.
    pub fn has_default_value(&self) -> (r: bool)
        ensures
            r == self@.default_value is Some,
    {
        self.default_value.is_some()
    }

    /// Sets the `default_value` field.
    pub fn set_default_value(&mut self, value: String)
        ensures
            final(self)@ == (FieldDescriptorProtoView { default_value: Some(value@), ..old(self)@ }),
    {
        self.default_value = Some(value);
    }

    /// Takes the `default_value` field out, leaving it unset.
    pub fn take_default_value(&mut self) -> (r: Option<String>)
        ensures
            opt_view(r) == old(self)@.default_value,
            final(self)@ == (FieldDescriptorProtoView { default_value: None, ..old(self)@ }),
    {
        self.default_value.take()
    }

    /// Clears the `default_value` field, leaving it unset.
    pub fn clear_default_value(&mut self)
        ensures
            final(self)@ == (FieldDescriptorProtoView { default_value: None, ..old(self)@ }),
    {
        self.default_value = None;
    }

    /// Gets the `oneof_index` field, or its default, `0`.
    pub fn oneof_index(&self) -> (r: i32)
        ensures
            r == self@.oneof_index.unwrap_or(0i32),
    {
        match self.oneof_index {
            Some(v) => v,
            None => 0i32,
        }
    }

    /// Gets the `oneof_index` field if it is set.
    pub fn oneof_index_option(&self) -> (r: Option<&i32>)
        ensures
            opt_ref_view(r) == self@.oneof_index,
    {
        self.oneof_index.as_ref()
    }

    /// Gets the `oneof_index` field for changing it, setting it to its type's default first if it
    /// is not set.
    pub fn oneof_index_mut(&mut self) -> (r: &mut i32)
        ensures
            (*r)@ == old(self)@.oneof_index.unwrap_or(0i32),
            final(self)@ == (FieldDescriptorProtoView { oneof_index: Some((*final(r))@), ..old(self)@ }),
    {
        self.oneof_index.get_or_insert(0i32)
    }

    /// Returns whether the `oneof_index` field is set.
    pub fn has_oneof_index(&self) -> (r: bool)
        ensures
            r == self@.oneof_index is Some,
    {
        self.oneof_index.is_some()
    }

    /// Sets the `oneof_index` field.
    pub fn set_oneof_index(&mut self, value: i32)
        ensures
            final(self)@ == (FieldDescriptorProtoView { oneof_index: Some(value@), ..old(self)@ }),
    {
        self.oneof_index = Some(value);
    }

    /// Takes the `oneof_index` field out, leaving it unset.
    pub fn take_oneof_index(&mut self) -> (r: Option<i32>)
        ensures
            opt_view(r) == old(self)@.oneof_index,
            final(self)@ == (FieldDescriptorProtoView { oneof_index: None, ..old(self)@ }),
    {
        self.oneof_index.take()
    }

    /// Clears the `oneof_index` field, leaving it unset.
    pub fn clear_oneof_index(&mut self)
        ensures
            final(self)@ == (FieldDescriptorProtoView { oneof_index: None, ..old(self)@ }),
    {
        self.oneof_index = None;
    }

    /// Gets the `json_name` field, or its default, the empty string.
    pub fn json_name(&self) -> (r: &str)
        ensures
            r@ == text_or_empty(self@.json_name),
    {
        proof {
            reveal_strlit("");
        }
        match &self.json_name {
            Some(s) => s.as_str(),
            None => "",
        }
    }

    /// Gets the `json_name` field if it is set.
    pub fn json_name_option(&self) -> (r: Option<&String>)
        ensures
            opt_ref_view(r) == self@.json_name,
    {
        self.json_name.as_ref()
    }

    /// Gets the `json_name` field for changing it, setting it to its type's default first if it
    /// is not set.
    pub fn json_name_mut(&mut self) -> (r: &mut String)
        ensures
            (*r)@ == old(self)@.json_name.unwrap_or(Seq::<char>::empty()),
            final(self)@ == (FieldDescriptorProtoView { json_name: Some((*final(r))@), ..old(self)@ }),
    {
        self.json_name.get_or_insert(String::new())
    }

    /// Returns whether the `json_name` field is set.
    pub fn has_json_name(&self) -> (r: bool)
        ensures
            r == self@.json_name is Some,
    {
        self.json_name.is_some()
    }

    /// Sets the `json_name` field.
    pub fn set_json_name(&mut self, value: String)
        ensures
            final(self)@ == (FieldDescriptorProtoView { json_name: Some(value@), ..old(self)@ }),
    {
        self.json_name = Some(value);
    }

    /// Takes the `json_name` field out, leaving it unset.
    pub fn take_json_name(&mut self) -> (r: Option<String>)
        ensures
            opt_view(r) == old(self)@.json_name,
            final(self)@ == (FieldDescriptorProtoView { json_name: None, ..old(self)@ }),
    {
        self.json_name.take()
    }

    /// Clears the `json_name` field, leaving it unset.
    pub fn clear_json_name(&mut self)
        ensures
            final(self)@ == (FieldDescriptorProtoView { json_name: None, ..old(self)@ }),
    {
        self.json_name = None;
    }

    /// Gets the `options` field if it is set.
    pub fn options_option(&self) -> (r: Option<&FieldOptions>)
        ensures
            opt_ref_view(r) == self@.options,
    {
        self.options.as_ref()
    }

    /// Gets the `options` field for changing it, setting it to its type's default first if it
    /// is not set.
    pub fn options_mut(&mut self) -> (r: &mut FieldOptions)
        ensures
            (*r)@ == old(self)@.options.unwrap_or(field_options_default()),
            final(self)@ == (FieldDescriptorProtoView { options: Some((*final(r))@), ..old(self)@ }),
    {
        self.options.get_or_insert(FieldOptions::default())
    }

    /// Returns whether the `options` field is set.
    pub fn has_options(&self) -> (r: bool)
        ensures
            r == self@.options is Some,
    {
        self.options.is_some()
    }

    /// Sets the `options` field.
    pub fn set_options(&mut self, value: FieldOptions)
        ensures
            final(self)@ == (FieldDescriptorProtoView { options: Some(value@), ..old(self)@ }),
    {
        self.options = Some(value);
    }

    /// Takes the `options` field out, leaving it unset.
    pub fn take_options(&mut self) -> (r: Option<FieldOptions>)
        ensures
            opt_view(r) == old(self)@.options,
            final(self)@ == (FieldDescriptorProtoView { options: None, ..old(self)@ }),
    {
        self.options.take()
    }

    /// Clears the `options` field, leaving it unset.
    pub fn clear_options(&mut self)
        ensures
            final(self)@ == (FieldDescriptorProtoView { options: None, ..old(self)@ }),
    {
        self.options = None;
    }
}

/// The parts a `FieldDescriptorProto` is written as: its fields that are set, in field number order, then its
/// unknown fields.
#[verifier::opaque]
pub open spec fn field_descriptor_proto_parts(v: FieldDescriptorProtoView) -> Seq<(bool, Seq<u8>)>
{
    opt_field_parts::<raw::String>(1u32, v.name) + (opt_field_parts::<raw::String>(2u32, v.extendee) + (opt_field_parts::<raw::Int32>(3u32, v.number) + (opt_field_parts::<raw::Enum<field_descriptor_proto::Label>>(4u32, v.label) + (opt_field_parts::<raw::Enum<field_descriptor_proto::Type>>(5u32, v.field_type) + (opt_field_parts::<raw::String>(6u32, v.type_name_text) + (opt_field_parts::<raw::String>(7u32, v.default_value) + (field_options_opt_parts(8u32, v.options) + (opt_field_parts::<raw::Int32>(9u32, v.oneof_index) + (opt_field_parts::<raw::String>(10u32, v.json_name) + (set_parts(v.unknown_fields)))))))))))
}

/// The parts the `FieldDescriptorProto` values of a repeated field with field number `num` are written as:
/// for each, its tag, its length and its parts.
pub open spec fn field_descriptor_proto_seq_parts(num: u32, ys: Seq<FieldDescriptorProtoView>) -> Seq<(bool, Seq<u8>)>
    decreases ys,
{
    if ys.len() == 0 {
        Seq::empty()
    } else {
        field_descriptor_proto_seq_parts(num, ys.subrange(0, ys.len() - 1)) + entry_parts(num, field_descriptor_proto_parts(ys[ys.len() - 1]))
    }
}

/// What reading the field with tag value `t` from the front of `rest` into `v` gives: the
/// number of bytes read and the message after, or the error.
pub open spec fn field_descriptor_proto_field_read(v: FieldDescriptorProtoView, t: u32, rest: Seq<u8>, depth: nat, limit: nat, skip: bool, eg: Option<Tag>) -> ReadResult<(int, FieldDescriptorProtoView)>
{
    if t == 10u32 {
        match <raw::String as Value>::decoding(rest) { Ok((m, x)) => Ok((m, FieldDescriptorProtoView { name: Some(x), ..v })), Err(e) => Err(e) }
    } else if t == 18u32 {
        match <raw::String as Value>::decoding(rest) { Ok((m, x)) => Ok((m, FieldDescriptorProtoView { extendee: Some(x), ..v })), Err(e) => Err(e) }
    } else if t == 24u32 {
        match <raw::Int32 as Value>::decoding(rest) { Ok((m, x)) => Ok((m, FieldDescriptorProtoView { number: Some(x), ..v })), Err(e) => Err(e) }
    } else if t == 32u32 {
        match <raw::Enum<field_descriptor_proto::Label> as Value>::decoding(rest) { Ok((m, x)) => Ok((m, FieldDescriptorProtoView { label: Some(x), ..v })), Err(e) => Err(e) }
    } else if t == 40u32 {
        match <raw::Enum<field_descriptor_proto::Type> as Value>::decoding(rest) { Ok((m, x)) => Ok((m, FieldDescriptorProtoView { field_type: Some(x), ..v })), Err(e) => Err(e) }
    } else if t == 50u32 {
        match <raw::String as Value>::decoding(rest) { Ok((m, x)) => Ok((m, FieldDescriptorProtoView { type_name_text: Some(x), ..v })), Err(e) => Err(e) }
    } else if t == 58u32 {
        match <raw::String as Value>::decoding(rest) { Ok((m, x)) => Ok((m, FieldDescriptorProtoView { default_value: Some(x), ..v })), Err(e) => Err(e) }
    } else if t == 66u32 {
        match length_delimited_read(rest) { Err(e) => Err(e), Ok((m, b)) => if depth >= limit { Err(ReadError::RecursionLimitExceeded) } else { match field_options_merged(match v.options { Some(y) => y, None => field_options_default() }, b, depth + 1, limit, skip, eg) { Ok(y) => Ok((m, FieldDescriptorProtoView { options: Some(y), ..v })), Err(e) => Err(e) } } }
    } else if t == 72u32 {
        match <raw::Int32 as Value>::decoding(rest) { Ok((m, x)) => Ok((m, FieldDescriptorProtoView { oneof_index: Some(x), ..v })), Err(e) => Err(e) }
    } else if t == 82u32 {
        match <raw::String as Value>::decoding(rest) { Ok((m, x)) => Ok((m, FieldDescriptorProtoView { json_name: Some(x), ..v })), Err(e) => Err(e) }
    } else {
        match unknown_field_read(v.unknown_fields, t, rest, depth, limit, skip, eg) {
            Ok((m, u)) => Ok((m, FieldDescriptorProtoView { unknown_fields: u, ..v })),
            Err(e) => Err(e),
        }
    }
}

/// What reading all of `s` into `v` as `FieldDescriptorProto` fields gives: the message after, or the error.
/// `depth` and `limit` are the reader's depth and recursion limit, `skip` whether it skips
/// unknown fields, and `eg` the end tag of the group it is in.
pub open spec fn field_descriptor_proto_merged(v: FieldDescriptorProtoView, s: Seq<u8>, depth: nat, limit: nat, skip: bool, eg: Option<Tag>) -> ReadResult<FieldDescriptorProtoView>
    decreases s.len(),
{
    if s.len() == 0 {
        Ok(v)
    } else {
        match varint_read(s) {
            Err(e) => Err(e),
            Ok((n, w)) => if n < 1 || n > s.len() {
                Err(eof())
            } else {
                match field_descriptor_proto_field_read(v, w as u32, s.skip(n), depth, limit, skip, eg) {
                    Err(e) => Err(e),
                    Ok((m, v2)) => if m < 0 || n + m > s.len() {
                        Err(eof())
                    } else {
                        field_descriptor_proto_merged(v2, s.skip(n + m), depth, limit, skip, eg)
                    },
                }
            },
        }
    }
}

/// The views of a run of `FieldDescriptorProto` values, value by value.
pub proof fn lemma_field_descriptor_proto_seq_view(s: Seq<FieldDescriptorProto>)
    ensures
        field_descriptor_proto_seq_view(s).len() == s.len(),
        forall|i: int| 0 <= i < s.len() ==> #[trigger] field_descriptor_proto_seq_view(s)[i] == field_descriptor_proto_view(s[i]),
    decreases s.len(),
{
    if s.len() > 0 {
        lemma_field_descriptor_proto_seq_view(s.subrange(0, s.len() - 1));
        assert forall|i: int| 0 <= i < s.len() implies #[trigger] field_descriptor_proto_seq_view(s)[i] == field_descriptor_proto_view(s[i]) by {
            if i < s.len() - 1 {
                assert(s.subrange(0, s.len() - 1)[i] == s[i]);
            }
        }
    }
}

/// The parts of two runs of `FieldDescriptorProto` values are those of the first, then the second.
proof fn lemma_field_descriptor_proto_seq_parts_append(num: u32, a: Seq<FieldDescriptorProtoView>, b: Seq<FieldDescriptorProtoView>)
    ensures
        field_descriptor_proto_seq_parts(num, a + b) == field_descriptor_proto_seq_parts(num, a) + field_descriptor_proto_seq_parts(num, b),
    decreases b.len(),
{
    if b.len() == 0 {
        assert(a + b =~= a);
        assert(field_descriptor_proto_seq_parts(num, a) + field_descriptor_proto_seq_parts(num, b) =~= field_descriptor_proto_seq_parts(num, a));
    } else {
        let ab = a + b;
        assert(ab.subrange(0, ab.len() - 1) =~= a + b.subrange(0, b.len() - 1));
        assert(ab[ab.len() - 1] == b[b.len() - 1]);
        lemma_field_descriptor_proto_seq_parts_append(num, a, b.subrange(0, b.len() - 1));
        assert(field_descriptor_proto_seq_parts(num, a + b) =~= field_descriptor_proto_seq_parts(num, a) + field_descriptor_proto_seq_parts(num, b));
    }
}

/// The parts of the first `i + 1` values of a run are those of the first `i`, then the entry
/// of value `i`; and those of the whole run are those of the first `i + 1`, then the rest.
proof fn lemma_field_descriptor_proto_seq_parts_step(num: u32, ys: Seq<FieldDescriptorProtoView>, i: int)
    requires
        0 <= i < ys.len(),
    ensures
        field_descriptor_proto_seq_parts(num, ys.take(i + 1)) == field_descriptor_proto_seq_parts(num, ys.take(i)) + entry_parts(num, field_descriptor_proto_parts(ys[i])),
        field_descriptor_proto_seq_parts(num, ys) == field_descriptor_proto_seq_parts(num, ys.take(i + 1)) + field_descriptor_proto_seq_parts(num, ys.skip(i + 1)),
{
    assert(ys.take(i + 1).subrange(0, i) =~= ys.take(i));
    assert(ys.take(i + 1)[i] == ys[i]);
    lemma_field_descriptor_proto_seq_parts_append(num, ys.take(i + 1), ys.skip(i + 1));
    assert(ys.take(i + 1) + ys.skip(i + 1) =~= ys);
}

/// The parts of `FieldDescriptorProto` values are those of the first value's entry, then those of the others.
proof fn lemma_field_descriptor_proto_seq_parts_front(num: u32, ys: Seq<FieldDescriptorProtoView>)
    requires
        ys.len() > 0,
    ensures
        field_descriptor_proto_seq_parts(num, ys) == entry_parts(num, field_descriptor_proto_parts(ys[0])) + field_descriptor_proto_seq_parts(num, ys.drop_first()),
{
    let one = seq![ys[0]];
    lemma_field_descriptor_proto_seq_parts_append(num, one, ys.drop_first());
    assert(one + ys.drop_first() =~= ys);
    assert(one.subrange(0, 0) =~= Seq::<FieldDescriptorProtoView>::empty());
    assert(field_descriptor_proto_seq_parts(num, Seq::<FieldDescriptorProtoView>::empty()) =~= Seq::<(bool, Seq<u8>)>::empty());
    assert(one[0] == ys[0]);
    assert(field_descriptor_proto_seq_parts(num, one) =~= entry_parts(num, field_descriptor_proto_parts(ys[0])));
}

/// Adds the size of the `FieldDescriptorProto` values of a repeated field with field number `num`.
fn field_descriptor_proto_values_size(vs: &Vec<FieldDescriptorProto>, builder: LengthBuilder, num: FieldNumber) -> (r: Option<LengthBuilder>)
    ensures
        size_added(builder@ as int, parts_encodable(field_descriptor_proto_seq_parts(num@, field_descriptor_proto_seq_view(vs@))), parts_bytes(field_descriptor_proto_seq_parts(num@, field_descriptor_proto_seq_view(vs@))).len() as int, r),
{
    let ghost ys = field_descriptor_proto_seq_view(vs@);
    proof {
        lemma_field_descriptor_proto_seq_view(vs@);
        assert(ys.take(0) =~= Seq::<FieldDescriptorProtoView>::empty());
    }
    let mut b = builder;
    let mut i: usize = 0;
    while i < vs.len()
        invariant
            ys == field_descriptor_proto_seq_view(vs@),
            ys.len() == vs@.len(),
            forall|k: int| 0 <= k < vs@.len() ==> #[trigger] ys[k] == field_descriptor_proto_view(vs@[k]),
            i <= vs@.len(),
            size_added(builder@ as int, parts_encodable(field_descriptor_proto_seq_parts(num@, ys.take(i as int))), parts_bytes(field_descriptor_proto_seq_parts(num@, ys.take(i as int))).len() as int, Some(b)),
        decreases vs@.len() - i,
    {
        let ghost y = ys[i as int];
        let ghost done = field_descriptor_proto_seq_parts(num@, ys.take(i as int));
        let ghost cur = entry_parts(num@, field_descriptor_proto_parts(y));
        let ghost rest = field_descriptor_proto_seq_parts(num@, ys.skip(i + 1));
        proof {
            lemma_field_descriptor_proto_seq_parts_step(num@, ys, i as int);
        }
        let len = vs[i].calculate_size();
        let r = add_entry_size(b, num, len, Ghost(field_descriptor_proto_parts(y)));
        proof {
            lemma_size_chain(builder@ as int, done, cur, Some(b), r);
        }
        b = match r {
            Some(b1) => b1,
            None => {
                proof {
                    lemma_size_prefix(builder@ as int, done + cur, rest);
                }
                return None;
            },
        };
        i = i + 1;
    }
    proof {
        assert(ys.take(i as int) =~= ys);
    }
    Some(b)
}

/// Writes the `FieldDescriptorProto` values of a repeated field with field number `num`: for each, its tag,
/// its length and its fields.
fn write_field_descriptor_proto_values(vs: &Vec<FieldDescriptorProto>, output: &mut CodedWriter, num: FieldNumber) -> (r: WriteResult)
    ensures
        (final(output).written(), r) == parts_written(old(output).written(), old(output).capacity(), field_descriptor_proto_seq_parts(num@, field_descriptor_proto_seq_view(vs@))),
        final(output).capacity() == old(output).capacity(),
        (*final(final(output).target()))@ == (*final(old(output).target()))@,
{
    let ghost ys = field_descriptor_proto_seq_view(vs@);
    let ghost start = output.written();
    let ghost cap = output.capacity();
    proof {
        lemma_field_descriptor_proto_seq_view(vs@);
        assert(ys.take(0) =~= Seq::<FieldDescriptorProtoView>::empty());
    }
    let mut i: usize = 0;
    while i < vs.len()
        invariant
            ys == field_descriptor_proto_seq_view(vs@),
            ys.len() == vs@.len(),
            forall|k: int| 0 <= k < vs@.len() ==> #[trigger] ys[k] == field_descriptor_proto_view(vs@[k]),
            i <= vs@.len(),
            start == old(output).written(),
            cap == old(output).capacity(),
            output.capacity() == cap,
            (*final(output.target()))@ == (*final(old(output).target()))@,
            parts_written(start, cap, field_descriptor_proto_seq_parts(num@, ys.take(i as int))).0 == output.written(),
            parts_written(start, cap, field_descriptor_proto_seq_parts(num@, ys.take(i as int))).1 is Ok,
        decreases vs@.len() - i,
    {
        let ghost y = ys[i as int];
        let ghost done = field_descriptor_proto_seq_parts(num@, ys.take(i as int));
        let ghost head = entry_head(num@, field_descriptor_proto_parts(y));
        let ghost cur = head + field_descriptor_proto_parts(y);
        let ghost rest = field_descriptor_proto_seq_parts(num@, ys.skip(i + 1));
        let ghost w0 = output.written();
        proof {
            lemma_field_descriptor_proto_seq_parts_step(num@, ys, i as int);
            lemma_parts_written_append(start, cap, done, cur);
            lemma_parts_written_append(start, cap, done + cur, rest);
            lemma_parts_written_append(w0, cap, head, field_descriptor_proto_parts(y));
            reveal_with_fuel(parts_written, 3);
            assert(head.drop_first().drop_first() =~= Seq::<(bool, Seq<u8>)>::empty());
        }
        match output.write_tag(Tag::new(num, WireType::LengthDelimited)) {
            Ok(()) => {},
            Err(e) => return Err(e),
        }
        let len = match vs[i].calculate_size() {
            Some(len) => len,
            None => return Err(WriteError::ValueTooLarge),
        };
        match output.write_length(len) {
            Ok(()) => {},
            Err(e) => return Err(e),
        }
        match vs[i].write_to(output) {
            Ok(()) => {},
            Err(e) => return Err(e),
        }
        i = i + 1;
    }
    proof {
        assert(ys.take(i as int) =~= ys);
        lemma_ok_unit(parts_written(start, cap, field_descriptor_proto_seq_parts(num@, ys)).1);
    }
    Ok(())
}

/// Reads a `FieldDescriptorProto` from the reader as a length delimited value, merging it into `this`, one
/// level deeper.
fn merge_field_descriptor_proto_delimited(this: &mut FieldDescriptorProto, input: &mut CodedReader) -> (r: ReadResult<()>)
    ensures
        match length_delimited_read(old(input).available()) {
            Err(e) => r == Err::<(), ReadError>(e) && same_config(*old(input), *final(input)),
            Ok((m, b)) => if old(input).depth() >= old(input).recursion_limit() {
                r == Err::<(), ReadError>(ReadError::RecursionLimitExceeded) && same_config(*old(input), *final(input))
            } else {
                match field_descriptor_proto_merged(old(this)@, b, old(input).depth() + 1, old(input).recursion_limit(), skips(*old(input)), old(input).end_group_view()) {
                    Ok(y) => r is Ok && final(this)@ == y && final(input).position() == old(input).position() + m
                        && same_state(*old(input), *final(input)),
                    Err(e) => r == Err::<(), ReadError>(e) && same_config(*old(input), *final(input)),
                }
            },
        },
{
    let rem0 = input.remaining();
    let ghost s = input.available();
    let ghost start = *input;
    let length = match input.read_length() {
        Ok(l) => l,
        Err(e) => return Err(e),
    };
    let rem1 = input.remaining();
    let ghost n0 = input.position() - start.position();
    proof {
        lemma_varint_read_len(s);
        assert(input.available() =~= s.skip(n0));
    }
    let previous = match input.push_length(length) {
        Ok(p) => p,
        Err(e) => return Err(e),
    };
    let rem2 = input.remaining();
    let ghost b = s.subrange(n0, n0 + length@);
    proof {
        assert(input.available() =~= b);
        assert(length_delimited_read(s) == Ok::<(int, Seq<u8>), ReadError>((n0 + length@, b)));
    }
    let ghost pushed = *input;
    match input.increment_recursion_count() {
        Ok(()) => {},
        Err(e) => {
            input.pop_length(previous);
            return Err(e);
        },
    }
    let r = this.merge_from(input);
    let rem3 = input.remaining();
    input.decrement_recursion_count();
    input.pop_length(previous);
    r
}

impl FieldDescriptorProto {
    /// Gets the unknown fields of the message.
    pub fn unknown_fields(&self) -> (r: &UnknownFieldSet)
        ensures
            r@ == self@.unknown_fields,
    {
        &self.unknown_fields
    }

    /// Gets the unknown fields of the message for changing them.
    pub fn unknown_fields_mut(&mut self) -> (r: &mut UnknownFieldSet)
        ensures
            (*r)@ == old(self)@.unknown_fields,
            final(self)@ == (FieldDescriptorProtoView { unknown_fields: (*final(r))@, ..old(self)@ }),
    {
        &mut self.unknown_fields
    }

    /// Returns whether the message is initialized: whether all its required fields are set.
    pub fn is_initialized(&self) -> (r: bool)
        ensures
            r,
    {
        true
    }

    /// Calculates the size of the message as it is written: `None` if a part cannot be
    /// written or the size does not fit in a length.
    #[verifier::spinoff_prover]
    #[verifier::rlimit(100)]
    pub fn calculate_size(&self) -> (r: Option<Length>)
        ensures
            opt_length(r) == parts_size(field_descriptor_proto_parts(self@)),
    {
        let ghost v = self@;
        let ghost all = field_descriptor_proto_parts(v);
        let b0 = LengthBuilder::new();
        let ghost d0 = Seq::<(bool, Seq<u8>)>::empty();
        proof {
            reveal(field_descriptor_proto_parts);
            assert(all =~= d0 + all);
        }
        let ghost p1 = opt_field_parts::<raw::String>(1u32, v.name);
        let ghost rest1 = opt_field_parts::<raw::String>(2u32, v.extendee) + (opt_field_parts::<raw::Int32>(3u32, v.number) + (opt_field_parts::<raw::Enum<field_descriptor_proto::Label>>(4u32, v.label) + (opt_field_parts::<raw::Enum<field_descriptor_proto::Type>>(5u32, v.field_type) + (opt_field_parts::<raw::String>(6u32, v.type_name_text) + (opt_field_parts::<raw::String>(7u32, v.default_value) + (field_options_opt_parts(8u32, v.options) + (opt_field_parts::<raw::Int32>(9u32, v.oneof_index) + (opt_field_parts::<raw::String>(10u32, v.json_name) + (set_parts(v.unknown_fields))))))))));
        proof {
            assert(self@.name == opt_inner_view::<raw::String>(self.name));
            assert(all == d0 + (p1 + rest1));
            assert(d0 + (p1 + rest1) =~= d0 + p1 + rest1);
        }
        let r1 = add_opt_field::<raw::String>(b0, FieldNumber::new_unchecked(1), &self.name);
        proof {
            lemma_size_chain(0, d0, p1, Some(b0), r1);
            if r1 is None {
                lemma_size_chain(0, d0 + p1, rest1, r1, r1);
            }
        }
        let b1 = match r1 {
            Some(b) => b,
            None => return None,
        };
        let ghost d1 = d0 + p1;
        let ghost p2 = opt_field_parts::<raw::String>(2u32, v.extendee);
        let ghost rest2 = opt_field_parts::<raw::Int32>(3u32, v.number) + (opt_field_parts::<raw::Enum<field_descriptor_proto::Label>>(4u32, v.label) + (opt_field_parts::<raw::Enum<field_descriptor_proto::Type>>(5u32, v.field_type) + (opt_field_parts::<raw::String>(6u32, v.type_name_text) + (opt_field_parts::<raw::String>(7u32, v.default_value) + (field_options_opt_parts(8u32, v.options) + (opt_field_parts::<raw::Int32>(9u32, v.oneof_index) + (opt_field_parts::<raw::String>(10u32, v.json_name) + (set_parts(v.unknown_fields)))))))));
        proof {
            assert(self@.extendee == opt_inner_view::<raw::String>(self.extendee));
            assert(all == d1 + (p2 + rest2));
            assert(d1 + (p2 + rest2) =~= d1 + p2 + rest2);
        }
        let r2 = add_opt_field::<raw::String>(b1, FieldNumber::new_unchecked(2), &self.extendee);
        proof {
            lemma_size_chain(0, d1, p2, Some(b1), r2);
            if r2 is None {
                lemma_size_chain(0, d1 + p2, rest2, r2, r2);
            }
        }
        let b2 = match r2 {
            Some(b) => b,
            None => return None,
        };
        let ghost d2 = d1 + p2;
        let ghost p3 = opt_field_parts::<raw::Int32>(3u32, v.number);
        let ghost rest3 = opt_field_parts::<raw::Enum<field_descriptor_proto::Label>>(4u32, v.label) + (opt_field_parts::<raw::Enum<field_descriptor_proto::Type>>(5u32, v.field_type) + (opt_field_parts::<raw::String>(6u32, v.type_name_text) + (opt_field_parts::<raw::String>(7u32, v.default_value) + (field_options_opt_parts(8u32, v.options) + (opt_field_parts::<raw::Int32>(9u32, v.oneof_index) + (opt_field_parts::<raw::String>(10u32, v.json_name) + (set_parts(v.unknown_fields))))))));
        proof {
            assert(self@.number == opt_inner_view::<raw::Int32>(self.number));
            assert(all == d2 + (p3 + rest3));
            assert(d2 + (p3 + rest3) =~= d2 + p3 + rest3);
        }
        let r3 = add_opt_field::<raw::Int32>(b2, FieldNumber::new_unchecked(3), &self.number);
        proof {
            lemma_size_chain(0, d2, p3, Some(b2), r3);
            if r3 is None {
                lemma_size_chain(0, d2 + p3, rest3, r3, r3);
            }
        }
        let b3 = match r3 {
            Some(b) => b,
            None => return None,
        };
        let ghost d3 = d2 + p3;
        let ghost p4 = opt_field_parts::<raw::Enum<field_descriptor_proto::Label>>(4u32, v.label);
        let ghost rest4 = opt_field_parts::<raw::Enum<field_descriptor_proto::Type>>(5u32, v.field_type) + (opt_field_parts::<raw::String>(6u32, v.type_name_text) + (opt_field_parts::<raw::String>(7u32, v.default_value) + (field_options_opt_parts(8u32, v.options) + (opt_field_parts::<raw::Int32>(9u32, v.oneof_index) + (opt_field_parts::<raw::String>(10u32, v.json_name) + (set_parts(v.unknown_fields)))))));
        proof {
            assert(self@.label == opt_inner_view::<raw::Enum<field_descriptor_proto::Label>>(self.label));
            assert(all == d3 + (p4 + rest4));
            assert(d3 + (p4 + rest4) =~= d3 + p4 + rest4);
        }
        let r4 = add_opt_field::<raw::Enum<field_descriptor_proto::Label>>(b3, FieldNumber::new_unchecked(4), &self.label);
        proof {
            lemma_size_chain(0, d3, p4, Some(b3), r4);
            if r4 is None {
                lemma_size_chain(0, d3 + p4, rest4, r4, r4);
            }
        }
        let b4 = match r4 {
            Some(b) => b,
            None => return None,
        };
        let ghost d4 = d3 + p4;
        let ghost p5 = opt_field_parts::<raw::Enum<field_descriptor_proto::Type>>(5u32, v.field_type);
        let ghost rest5 = opt_field_parts::<raw::String>(6u32, v.type_name_text) + (opt_field_parts::<raw::String>(7u32, v.default_value) + (field_options_opt_parts(8u32, v.options) + (opt_field_parts::<raw::Int32>(9u32, v.oneof_index) + (opt_field_parts::<raw::String>(10u32, v.json_name) + (set_parts(v.unknown_fields))))));
        proof {
            assert(self@.field_type == opt_inner_view::<raw::Enum<field_descriptor_proto::Type>>(self.field_type));
            assert(all == d4 + (p5 + rest5));
            assert(d4 + (p5 + rest5) =~= d4 + p5 + rest5);
        }
        let r5 = add_opt_field::<raw::Enum<field_descriptor_proto::Type>>(b4, FieldNumber::new_unchecked(5), &self.field_type);
        proof {
            lemma_size_chain(0, d4, p5, Some(b4), r5);
            if r5 is None {
                lemma_size_chain(0, d4 + p5, rest5, r5, r5);
            }
        }
        let b5 = match r5 {
            Some(b) => b,
            None => return None,
        };
        let ghost d5 = d4 + p5;
        let ghost p6 = opt_field_parts::<raw::String>(6u32, v.type_name_text);
        let ghost rest6 = opt_field_parts::<raw::String>(7u32, v.default_value) + (field_options_opt_parts(8u32, v.options) + (opt_field_parts::<raw::Int32>(9u32, v.oneof_index) + (opt_field_parts::<raw::String>(10u32, v.json_name) + (set_parts(v.unknown_fields)))));
        proof {
            assert(self@.type_name_text == opt_inner_view::<raw::String>(self.type_name_text));
            assert(all == d5 + (p6 + rest6));
            assert(d5 + (p6 + rest6) =~= d5 + p6 + rest6);
        }
        let r6 = add_opt_field::<raw::String>(b5, FieldNumber::new_unchecked(6), &self.type_name_text);
        proof {
            lemma_size_chain(0, d5, p6, Some(b5), r6);
            if r6 is None {
                lemma_size_chain(0, d5 + p6, rest6, r6, r6);
            }
        }
        let b6 = match r6 {
            Some(b) => b,
            None => return None,
        };
        let ghost d6 = d5 + p6;
        let ghost p7 = opt_field_parts::<raw::String>(7u32, v.default_value);
        let ghost rest7 = field_options_opt_parts(8u32, v.options) + (opt_field_parts::<raw::Int32>(9u32, v.oneof_index) + (opt_field_parts::<raw::String>(10u32, v.json_name) + (set_parts(v.unknown_fields))));
        proof {
            assert(self@.default_value == opt_inner_view::<raw::String>(self.default_value));
            assert(all == d6 + (p7 + rest7));
            assert(d6 + (p7 + rest7) =~= d6 + p7 + rest7);
        }
        let r7 = add_opt_field::<raw::String>(b6, FieldNumber::new_unchecked(7), &self.default_value);
        proof {
            lemma_size_chain(0, d6, p7, Some(b6), r7);
            if r7 is None {
                lemma_size_chain(0, d6 + p7, rest7, r7, r7);
            }
        }
        let b7 = match r7 {
            Some(b) => b,
            None => return None,
        };
        let ghost d7 = d6 + p7;
        let ghost p8 = field_options_opt_parts(8u32, v.options);
        let ghost rest8 = opt_field_parts::<raw::Int32>(9u32, v.oneof_index) + (opt_field_parts::<raw::String>(10u32, v.json_name) + (set_parts(v.unknown_fields)));
        proof {
            assert(self@.options == opt_view(self.options));
            assert(all == d7 + (p8 + rest8));
            assert(d7 + (p8 + rest8) =~= d7 + p8 + rest8);
        }
        let r8 = field_options_opt_size(&self.options, b7, FieldNumber::new_unchecked(8));
        proof {
            lemma_size_chain(0, d7, p8, Some(b7), r8);
            if r8 is None {
                lemma_size_chain(0, d7 + p8, rest8, r8, r8);
            }
        }
        let b8 = match r8 {
            Some(b) => b,
            None => return None,
        };
        let ghost d8 = d7 + p8;
        let ghost p9 = opt_field_parts::<raw::Int32>(9u32, v.oneof_index);
        let ghost rest9 = opt_field_parts::<raw::String>(10u32, v.json_name) + (set_parts(v.unknown_fields));
        proof {
            assert(self@.oneof_index == opt_inner_view::<raw::Int32>(self.oneof_index));
            assert(all == d8 + (p9 + rest9));
            assert(d8 + (p9 + rest9) =~= d8 + p9 + rest9);
        }
        let r9 = add_opt_field::<raw::Int32>(b8, FieldNumber::new_unchecked(9), &self.oneof_index);
        proof {
            lemma_size_chain(0, d8, p9, Some(b8), r9);
            if r9 is None {
                lemma_size_chain(0, d8 + p9, rest9, r9, r9);
            }
        }
        let b9 = match r9 {
            Some(b) => b,
            None => return None,
        };
        let ghost d9 = d8 + p9;
        let ghost p10 = opt_field_parts::<raw::String>(10u32, v.json_name);
        let ghost rest10 = set_parts(v.unknown_fields);
        proof {
            assert(self@.json_name == opt_inner_view::<raw::String>(self.json_name));
            assert(all == d9 + (p10 + rest10));
            assert(d9 + (p10 + rest10) =~= d9 + p10 + rest10);
        }
        let r10 = add_opt_field::<raw::String>(b9, FieldNumber::new_unchecked(10), &self.json_name);
        proof {
            lemma_size_chain(0, d9, p10, Some(b9), r10);
            if r10 is None {
                lemma_size_chain(0, d9 + p10, rest10, r10, r10);
            }
        }
        let b10 = match r10 {
            Some(b) => b,
            None => return None,
        };
        let ghost d10 = d9 + p10;
        let ghost p11 = set_parts(v.unknown_fields);
        let ghost rest11 = Seq::<(bool, Seq<u8>)>::empty();
        proof {
            assert(all == d10 + p11);
            assert(p11 + rest11 =~= p11);
            assert(d10 + (p11 + rest11) =~= d10 + p11 + rest11);
        }
        let r11 = self.unknown_fields.calculate_size(b10);
        proof {
            lemma_size_chain(0, d10, p11, Some(b10), r11);
            if r11 is None {
                lemma_size_chain(0, d10 + p11, rest11, r11, r11);
            }
        }
        let b11 = match r11 {
            Some(b) => b,
            None => return None,
        };
        let ghost d11 = d10 + p11;
        Some(b11.build())
    }

    /// Writes the message to the writer: its fields that are set, in field number order, then
    /// its unknown fields.
    #[verifier::spinoff_prover]
    #[verifier::rlimit(100)]
    pub fn write_to(&self, output: &mut CodedWriter) -> (r: WriteResult)
        ensures
            (final(output).written(), r) == parts_written(old(output).written(), old(output).capacity(), field_descriptor_proto_parts(self@)),
            final(output).capacity() == old(output).capacity(),
            (*final(final(output).target()))@ == (*final(old(output).target()))@,
    {
        let ghost v = self@;
        let ghost all = field_descriptor_proto_parts(v);
        let ghost start = output.written();
        let ghost cap = output.capacity();
        let ghost d0 = Seq::<(bool, Seq<u8>)>::empty();
        proof {
            reveal(field_descriptor_proto_parts);
            assert(all =~= d0 + all);
        }
        let ghost p1 = opt_field_parts::<raw::String>(1u32, v.name);
        let ghost rest1 = opt_field_parts::<raw::String>(2u32, v.extendee) + (opt_field_parts::<raw::Int32>(3u32, v.number) + (opt_field_parts::<raw::Enum<field_descriptor_proto::Label>>(4u32, v.label) + (opt_field_parts::<raw::Enum<field_descriptor_proto::Type>>(5u32, v.field_type) + (opt_field_parts::<raw::String>(6u32, v.type_name_text) + (opt_field_parts::<raw::String>(7u32, v.default_value) + (field_options_opt_parts(8u32, v.options) + (opt_field_parts::<raw::Int32>(9u32, v.oneof_index) + (opt_field_parts::<raw::String>(10u32, v.json_name) + (set_parts(v.unknown_fields))))))))));
        proof {
            assert(self@.name == opt_inner_view::<raw::String>(self.name));
            assert(all == d0 + (p1 + rest1));
            assert(d0 + (p1 + rest1) =~= d0 + p1 + rest1);
            lemma_parts_written_append(start, cap, d0, p1);
            lemma_parts_written_append(start, cap, d0 + p1, rest1);
        }
        match write_opt_field::<raw::String>(output, FieldNumber::new_unchecked(1), &self.name) {
            Ok(()) => {},
            Err(e) => return Err(e),
        }
        let ghost d1 = d0 + p1;
        let ghost p2 = opt_field_parts::<raw::String>(2u32, v.extendee);
        let ghost rest2 = opt_field_parts::<raw::Int32>(3u32, v.number) + (opt_field_parts::<raw::Enum<field_descriptor_proto::Label>>(4u32, v.label) + (opt_field_parts::<raw::Enum<field_descriptor_proto::Type>>(5u32, v.field_type) + (opt_field_parts::<raw::String>(6u32, v.type_name_text) + (opt_field_parts::<raw::String>(7u32, v.default_value) + (field_options_opt_parts(8u32, v.options) + (opt_field_parts::<raw::Int32>(9u32, v.oneof_index) + (opt_field_parts::<raw::String>(10u32, v.json_name) + (set_parts(v.unknown_fields)))))))));
        proof {
            assert(self@.extendee == opt_inner_view::<raw::String>(self.extendee));
            assert(all == d1 + (p2 + rest2));
            assert(d1 + (p2 + rest2) =~= d1 + p2 + rest2);
            lemma_parts_written_append(start, cap, d1, p2);
            lemma_parts_written_append(start, cap, d1 + p2, rest2);
        }
        match write_opt_field::<raw::String>(output, FieldNumber::new_unchecked(2), &self.extendee) {
            Ok(()) => {},
            Err(e) => return Err(e),
        }
        let ghost d2 = d1 + p2;
        let ghost p3 = opt_field_parts::<raw::Int32>(3u32, v.number);
        let ghost rest3 = opt_field_parts::<raw::Enum<field_descriptor_proto::Label>>(4u32, v.label) + (opt_field_parts::<raw::Enum<field_descriptor_proto::Type>>(5u32, v.field_type) + (opt_field_parts::<raw::String>(6u32, v.type_name_text) + (opt_field_parts::<raw::String>(7u32, v.default_value) + (field_options_opt_parts(8u32, v.options) + (opt_field_parts::<raw::Int32>(9u32, v.oneof_index) + (opt_field_parts::<raw::String>(10u32, v.json_name) + (set_parts(v.unknown_fields))))))));
        proof {
            assert(self@.number == opt_inner_view::<raw::Int32>(self.number));
            assert(all == d2 + (p3 + rest3));
            assert(d2 + (p3 + rest3) =~= d2 + p3 + rest3);
            lemma_parts_written_append(start, cap, d2, p3);
            lemma_parts_written_append(start, cap, d2 + p3, rest3);
        }
        match write_opt_field::<raw::Int32>(output, FieldNumber::new_unchecked(3), &self.number) {
            Ok(()) => {},
            Err(e) => return Err(e),
        }
        let ghost d3 = d2 + p3;
        let ghost p4 = opt_field_parts::<raw::Enum<field_descriptor_proto::Label>>(4u32, v.label);
        let ghost rest4 = opt_field_parts::<raw::Enum<field_descriptor_proto::Type>>(5u32, v.field_type) + (opt_field_parts::<raw::String>(6u32, v.type_name_text) + (opt_field_parts::<raw::String>(7u32, v.default_value) + (field_options_opt_parts(8u32, v.options) + (opt_field_parts::<raw::Int32>(9u32, v.oneof_index) + (opt_field_parts::<raw::String>(10u32, v.json_name) + (set_parts(v.unknown_fields)))))));
        proof {
            assert(self@.label == opt_inner_view::<raw::Enum<field_descriptor_proto::Label>>(self.label));
            assert(all == d3 + (p4 + rest4));
            assert(d3 + (p4 + rest4) =~= d3 + p4 + rest4);
            lemma_parts_written_append(start, cap, d3, p4);
            lemma_parts_written_append(start, cap, d3 + p4, rest4);
        }
        match write_opt_field::<raw::Enum<field_descriptor_proto::Label>>(output, FieldNumber::new_unchecked(4), &self.label) {
            Ok(()) => {},
            Err(e) => return Err(e),
        }
        let ghost d4 = d3 + p4;
        let ghost p5 = opt_field_parts::<raw::Enum<field_descriptor_proto::Type>>(5u32, v.field_type);
        let ghost rest5 = opt_field_parts::<raw::String>(6u32, v.type_name_text) + (opt_field_parts::<raw::String>(7u32, v.default_value) + (field_options_opt_parts(8u32, v.options) + (opt_field_parts::<raw::Int32>(9u32, v.oneof_index) + (opt_field_parts::<raw::String>(10u32, v.json_name) + (set_parts(v.unknown_fields))))));
        proof {
            assert(self@.field_type == opt_inner_view::<raw::Enum<field_descriptor_proto::Type>>(self.field_type));
            assert(all == d4 + (p5 + rest5));
            assert(d4 + (p5 + rest5) =~= d4 + p5 + rest5);
            lemma_parts_written_append(start, cap, d4, p5);
            lemma_parts_written_append(start, cap, d4 + p5, rest5);
        }
        match write_opt_field::<raw::Enum<field_descriptor_proto::Type>>(output, FieldNumber::new_unchecked(5), &self.field_type) {
            Ok(()) => {},
            Err(e) => return Err(e),
        }
        let ghost d5 = d4 + p5;
        let ghost p6 = opt_field_parts::<raw::String>(6u32, v.type_name_text);
        let ghost rest6 = opt_field_parts::<raw::String>(7u32, v.default_value) + (field_options_opt_parts(8u32, v.options) + (opt_field_parts::<raw::Int32>(9u32, v.oneof_index) + (opt_field_parts::<raw::String>(10u32, v.json_name) + (set_parts(v.unknown_fields)))));
        proof {
            assert(self@.type_name_text == opt_inner_view::<raw::String>(self.type_name_text));
            assert(all == d5 + (p6 + rest6));
            assert(d5 + (p6 + rest6) =~= d5 + p6 + rest6);
            lemma_parts_written_append(start, cap, d5, p6);
            lemma_parts_written_append(start, cap, d5 + p6, rest6);
        }
        match write_opt_field::<raw::String>(output, FieldNumber::new_unchecked(6), &self.type_name_text) {
            Ok(()) => {},
            Err(e) => return Err(e),
        }
        let ghost d6 = d5 + p6;
        let ghost p7 = opt_field_parts::<raw::String>(7u32, v.default_value);
        let ghost rest7 = field_options_opt_parts(8u32, v.options) + (opt_field_parts::<raw::Int32>(9u32, v.oneof_index) + (opt_field_parts::<raw::String>(10u32, v.json_name) + (set_parts(v.unknown_fields))));
        proof {
            assert(self@.default_value == opt_inner_view::<raw::String>(self.default_value));
            assert(all == d6 + (p7 + rest7));
            assert(d6 + (p7 + rest7) =~= d6 + p7 + rest7);
            lemma_parts_written_append(start, cap, d6, p7);
            lemma_parts_written_append(start, cap, d6 + p7, rest7);
        }
        match write_opt_field::<raw::String>(output, FieldNumber::new_unchecked(7), &self.default_value) {
            Ok(()) => {},
            Err(e) => return Err(e),
        }
        let ghost d7 = d6 + p7;
        let ghost p8 = field_options_opt_parts(8u32, v.options);
        let ghost rest8 = opt_field_parts::<raw::Int32>(9u32, v.oneof_index) + (opt_field_parts::<raw::String>(10u32, v.json_name) + (set_parts(v.unknown_fields)));
        proof {
            assert(self@.options == opt_view(self.options));
            assert(all == d7 + (p8 + rest8));
            assert(d7 + (p8 + rest8) =~= d7 + p8 + rest8);
            lemma_parts_written_append(start, cap, d7, p8);
            lemma_parts_written_append(start, cap, d7 + p8, rest8);
        }
        match write_field_options_opt(&self.options, output, FieldNumber::new_unchecked(8)) {
            Ok(()) => {},
            Err(e) => return Err(e),
        }
        let ghost d8 = d7 + p8;
        let ghost p9 = opt_field_parts::<raw::Int32>(9u32, v.oneof_index);
        let ghost rest9 = opt_field_parts::<raw::String>(10u32, v.json_name) + (set_parts(v.unknown_fields));
        proof {
            assert(self@.oneof_index == opt_inner_view::<raw::Int32>(self.oneof_index));
            assert(all == d8 + (p9 + rest9));
            assert(d8 + (p9 + rest9) =~= d8 + p9 + rest9);
            lemma_parts_written_append(start, cap, d8, p9);
            lemma_parts_written_append(start, cap, d8 + p9, rest9);
        }
        match write_opt_field::<raw::Int32>(output, FieldNumber::new_unchecked(9), &self.oneof_index) {
            Ok(()) => {},
            Err(e) => return Err(e),
        }
        let ghost d9 = d8 + p9;
        let ghost p10 = opt_field_parts::<raw::String>(10u32, v.json_name);
        let ghost rest10 = set_parts(v.unknown_fields);
        proof {
            assert(self@.json_name == opt_inner_view::<raw::String>(self.json_name));
            assert(all == d9 + (p10 + rest10));
            assert(d9 + (p10 + rest10) =~= d9 + p10 + rest10);
            lemma_parts_written_append(start, cap, d9, p10);
            lemma_parts_written_append(start, cap, d9 + p10, rest10);
        }
        match write_opt_field::<raw::String>(output, FieldNumber::new_unchecked(10), &self.json_name) {
            Ok(()) => {},
            Err(e) => return Err(e),
        }
        let ghost d10 = d9 + p10;
        let ghost p11 = set_parts(v.unknown_fields);
        let ghost rest11 = Seq::<(bool, Seq<u8>)>::empty();
        proof {
            assert(all == d10 + p11);
            assert(p11 + rest11 =~= p11);
            assert(d10 + (p11 + rest11) =~= d10 + p11 + rest11);
            lemma_parts_written_append(start, cap, d10, p11);
            lemma_parts_written_append(start, cap, d10 + p11, rest11);
        }
        match self.unknown_fields.write_to(output) {
            Ok(()) => {},
            Err(e) => return Err(e),
        }
        let ghost d11 = d10 + p11;
        proof {
            assert(all =~= d11 + Seq::<(bool, Seq<u8>)>::empty());
            assert(all == d11);
            lemma_ok_unit(parts_written(start, cap, all).1);
        }
        Ok(())
    }

    /// Reads the value of the field whose tag value `t` was just read into the message.
    #[verifier::spinoff_prover]
    fn merge_field(&mut self, t: u32, input: &mut CodedReader) -> (r: ReadResult<()>)
        ensures
            match field_descriptor_proto_field_read(old(self)@, t, old(input).available(), old(input).depth(), old(input).recursion_limit(), skips(*old(input)), old(input).end_group_view()) {
                Ok((m, v2)) => r is Ok && final(self)@ == v2 && m >= 0 && final(input).position()
                    == old(input).position() + m && same_state(*old(input), *final(input)),
                Err(e) => r == Err::<(), ReadError>(e) && same_config(*old(input), *final(input)),
            },
    {
        let rem0 = input.remaining();
        let ghost rest = input.available();
        if t == 10u32 {
            proof {
                <raw::String as Value>::lemma_decoding_len(rest);
            }
            input.set_last_tag(Some(Tag::new(FieldNumber::new_unchecked(1), WireType::LengthDelimited)));
            match <raw::String as Value>::merge_from(self.name.get_or_insert(std::string::String::new()), input) {
                Ok(()) => {},
                Err(e) => return Err(e),
            }
        } else if t == 18u32 {
            proof {
                <raw::String as Value>::lemma_decoding_len(rest);
            }
            input.set_last_tag(Some(Tag::new(FieldNumber::new_unchecked(2), WireType::LengthDelimited)));
            match <raw::String as Value>::merge_from(self.extendee.get_or_insert(std::string::String::new()), input) {
                Ok(()) => {},
                Err(e) => return Err(e),
            }
        } else if t == 24u32 {
            proof {
                <raw::Int32 as Value>::lemma_decoding_len(rest);
            }
            input.set_last_tag(Some(Tag::new(FieldNumber::new_unchecked(3), WireType::Varint)));
            match <raw::Int32 as Value>::merge_from(self.number.get_or_insert(0i32), input) {
                Ok(()) => {},
                Err(e) => return Err(e),
            }
        } else if t == 32u32 {
            proof {
                <raw::Enum<field_descriptor_proto::Label> as Value>::lemma_decoding_len(rest);
            }
            input.set_last_tag(Some(Tag::new(FieldNumber::new_unchecked(4), WireType::Varint)));
            match <raw::Enum<field_descriptor_proto::Label> as Value>::merge_from(self.label.get_or_insert(Label(0)), input) {
                Ok(()) => {},
                Err(e) => return Err(e),
            }
        } else if t == 40u32 {
            proof {
                <raw::Enum<field_descriptor_proto::Type> as Value>::lemma_decoding_len(rest);
            }
            input.set_last_tag(Some(Tag::new(FieldNumber::new_unchecked(5), WireType::Varint)));
            match <raw::Enum<field_descriptor_proto::Type> as Value>::merge_from(self.field_type.get_or_insert(Type(0)), input) {
                Ok(()) => {},
                Err(e) => return Err(e),
            }
        } else if t == 50u32 {
            proof {
                <raw::String as Value>::lemma_decoding_len(rest);
            }
            input.set_last_tag(Some(Tag::new(FieldNumber::new_unchecked(6), WireType::LengthDelimited)));
            match <raw::String as Value>::merge_from(self.type_name_text.get_or_insert(std::string::String::new()), input) {
                Ok(()) => {},
                Err(e) => return Err(e),
            }
        } else if t == 58u32 {
            proof {
                <raw::String as Value>::lemma_decoding_len(rest);
            }
            input.set_last_tag(Some(Tag::new(FieldNumber::new_unchecked(7), WireType::LengthDelimited)));
            match <raw::String as Value>::merge_from(self.default_value.get_or_insert(std::string::String::new()), input) {
                Ok(()) => {},
                Err(e) => return Err(e),
            }
        } else if t == 66u32 {
            proof {
                lemma_length_delimited_read_len(rest);
            }
            input.set_last_tag(Some(Tag::new(FieldNumber::new_unchecked(8), WireType::LengthDelimited)));
            match &mut self.options {
                Some(y) => match merge_field_options_delimited(y, input) {
                    Ok(()) => {},
                    Err(e) => return Err(e),
                },
                None => {
                    let mut y = FieldOptions::default();
                    match merge_field_options_delimited(&mut y, input) {
                        Ok(()) => {},
                        Err(e) => return Err(e),
                    }
                    self.options = Some(y);
                },
            }
        } else if t == 72u32 {
            proof {
                <raw::Int32 as Value>::lemma_decoding_len(rest);
            }
            input.set_last_tag(Some(Tag::new(FieldNumber::new_unchecked(9), WireType::Varint)));
            match <raw::Int32 as Value>::merge_from(self.oneof_index.get_or_insert(0i32), input) {
                Ok(()) => {},
                Err(e) => return Err(e),
            }
        } else if t == 82u32 {
            proof {
                <raw::String as Value>::lemma_decoding_len(rest);
            }
            input.set_last_tag(Some(Tag::new(FieldNumber::new_unchecked(10), WireType::LengthDelimited)));
            match <raw::String as Value>::merge_from(self.json_name.get_or_insert(std::string::String::new()), input) {
                Ok(()) => {},
                Err(e) => return Err(e),
            }
        } else {
            let tag = match Tag::try_from(t) {
                Ok(tag) => tag,
                Err(_) => return Err(ReadError::InvalidTag(t)),
            };
            input.set_last_tag(Some(tag));
            match self.unknown_fields.try_add_field_from(input) {
                Ok(TryRead::Consumed) => {},
                Ok(TryRead::Yielded) => match input.skip() {
                    Ok(()) => {},
                    Err(e) => return Err(e),
                },
                Err(e) => return Err(e),
            }
        }
        let rem1 = input.remaining();
        Ok(())
    }

    /// Merges the message with fields read from the reader, up to its limit. Scalar fields
    /// read replace those set, message fields are merged, repeated fields are added to,
    /// and unknown fields are stored or skipped as the reader says. On an error the message
    /// may hold some of the fields read before it.
    #[verifier::spinoff_prover]
    #[verifier::rlimit(50)]
    pub fn merge_from(&mut self, input: &mut CodedReader) -> (r: ReadResult<()>)
        ensures
            merge_outcome(field_descriptor_proto_merged(old(self)@, old(input).available(), old(input).depth(), old(input).recursion_limit(), skips(*old(input)), old(input).end_group_view()), final(self)@, *old(input), *final(input), r),
    {
        let rem0 = input.remaining();
        let ghost start = *input;
        let ghost total = field_descriptor_proto_merged(self@, input.available(), input.depth(), input.recursion_limit(), skips(*input), input.end_group_view());
        loop
            invariant
                start == *old(input),
                same_state(start, *input),
                0 <= start.position() <= input.position(),
                input.limit_end() <= input.input().len(),
                total == field_descriptor_proto_merged(old(self)@, start.available(), start.depth(), start.recursion_limit(), skips(start), start.end_group_view()),
                total == field_descriptor_proto_merged(self@, input.available(), start.depth(), start.recursion_limit(), skips(start), start.end_group_view()),
            decreases input.available().len(),
        {
            let ghost s = input.available();
            let ghost before = *input;
            let ghost v = self@;
            let t = match input.read_field() {
                Ok(Some(t)) => t,
                Ok(None) => return Ok(()),
                Err(e) => return Err(e),
            };
            let rem1 = input.remaining();
            let ghost n = input.position() - before.position();
            proof {
                lemma_varint_read_len(s);
                assert(input.available() =~= s.skip(n));
            }
            let ghost mid = *input;
            match self.merge_field(t, input) {
                Ok(()) => {},
                Err(e) => return Err(e),
            }
            let rem2 = input.remaining();
            proof {
                let m = input.position() - mid.position();
                assert(input.available() =~= s.skip(n + m));
            }
        }
    }
}

impl crate::Message for FieldDescriptorProto {
    open spec fn merged(v: FieldDescriptorProtoView, s: Seq<u8>, depth: nat, limit: nat, skip: bool, eg: Option<Tag>) -> ReadResult<FieldDescriptorProtoView> {
        field_descriptor_proto_merged(v, s, depth, limit, skip, eg)
    }

    open spec fn parts(v: FieldDescriptorProtoView) -> Seq<(bool, Seq<u8>)> {
        field_descriptor_proto_parts(v)
    }

    open spec fn initialized(v: FieldDescriptorProtoView) -> bool {
        true
    }

    open spec fn unknown_fields_of(v: FieldDescriptorProtoView) -> Seq<(u32, Seq<FieldValue>)> {
        v.unknown_fields
    }

    open spec fn with_unknown_fields(v: FieldDescriptorProtoView, u: Seq<(u32, Seq<FieldValue>)>) -> FieldDescriptorProtoView {
        FieldDescriptorProtoView { unknown_fields: u, ..v }
    }

    fn merge_from(&mut self, input: &mut CodedReader) -> (r: ReadResult<()>) {
        FieldDescriptorProto::merge_from(self, input)
    }

    fn calculate_size(&self) -> (r: Option<Length>) {
        FieldDescriptorProto::calculate_size(self)
    }

    fn write_to(&self, output: &mut CodedWriter) -> (r: WriteResult) {
        FieldDescriptorProto::write_to(self, output)
    }

    fn is_initialized(&self) -> (r: bool) {
        FieldDescriptorProto::is_initialized(self)
    }

    fn unknown_fields(&self) -> (r: &UnknownFieldSet) {
        FieldDescriptorProto::unknown_fields(self)
    }

    fn unknown_fields_mut(&mut self) -> (r: &mut UnknownFieldSet) {
        FieldDescriptorProto::unknown_fields_mut(self)
    }
}

impl DebugMessage for FieldDescriptorProto {
    open spec fn spec_full_name() -> Seq<char> {
        "google.protobuf.FieldDescriptorProto"@
    }

    open spec fn spec_name() -> Seq<char> {
        "FieldDescriptorProto"@
    }

    fn full_name() -> (r: &'static str) {
        "google.protobuf.FieldDescriptorProto"
    }

    fn name() -> (r: &'static str) {
        "FieldDescriptorProto"
    }
}

/// Whether `t` is the tag of a field a `FieldDescriptorProto` reads.
pub open spec fn field_descriptor_proto_known_tag(t: u32) -> bool {
    t == 10u32 || t == 18u32 || t == 24u32 || t == 32u32 || t == 40u32 || t == 50u32 || t == 58u32 || t == 66u32 || t == 72u32 || t == 82u32
}

/// Whether a `FieldDescriptorProto` is read back as it is written, at nesting depth `depth` of a reader with
/// recursion limit `limit`: its messages are read back as written one level deeper, within
/// the limit; and its unknown fields are read back as written, none with the tag of one of
/// its fields.
pub open spec fn field_descriptor_proto_roundtrips(v: FieldDescriptorProtoView, depth: nat, limit: nat) -> bool
{
    &&& (v.options matches Some(y) ==> depth < limit && field_options_roundtrips(y, depth + 1, limit))
    &&& set_readable(v.unknown_fields)
    &&& forall|k: int| 0 <= k < set_pairs(v.unknown_fields).len() ==> !field_descriptor_proto_known_tag(tag_value(
        #[trigger] set_pairs(v.unknown_fields)[k].0,
        field_value_wire_type(set_pairs(v.unknown_fields)[k].1),
    ))
}

/// Reading a `FieldDescriptorProto` field whose tag is read from the front of `s` and whose value is read after
/// it continues with the rest of `s`.
proof fn lemma_field_descriptor_proto_step(v: FieldDescriptorProtoView, s: Seq<u8>, k: int, t: u32, m: int, v2: FieldDescriptorProtoView, depth: nat, limit: nat)
    requires
        varint_read(s) == Ok::<(int, u64), ReadError>((k, t as u64)),
        1 <= k <= s.len(),
        field_descriptor_proto_field_read(v, t, s.skip(k), depth, limit, false, None) == Ok::<(int, FieldDescriptorProtoView), ReadError>((m, v2)),
        0 <= m,
        k + m <= s.len(),
    ensures
        field_descriptor_proto_merged(v, s, depth, limit, false, None) == field_descriptor_proto_merged(v2, s.skip(k + m), depth, limit, false, None),
{
    assert((t as u64) as u32 == t);
}

/// Reading the field `name` of a `FieldDescriptorProto` written from `o` sets it to `o`, whatever it held; nothing
/// is written, and nothing changes, for `None`.
proof fn lemma_field_descriptor_proto_read_name(d: FieldDescriptorProtoView, o: Option<Seq<char>>, rest: Seq<u8>, depth: nat, limit: nat)
    requires
        parts_encodable(opt_field_parts::<raw::String>(1u32, o)),
    ensures
        field_descriptor_proto_merged(d, parts_bytes(opt_field_parts::<raw::String>(1u32, o)) + rest, depth, limit, false, None) == field_descriptor_proto_merged(if o is Some { FieldDescriptorProtoView { name: o, ..d } } else { d }, rest, depth, limit, false, None),
{
    match o {
        None => {
            assert(parts_bytes(opt_field_parts::<raw::String>(1u32, o)) + rest =~= rest);
        },
        Some(x) => {
            let p = field_parts::<raw::String>(1u32, x);
            assert(p[1].0);
            let s = parts_bytes(p) + rest;
            lemma_field_bytes_read::<raw::String>(1u32, x, rest);
            lemma_tag_value(1u32, WireType::LengthDelimited);
            let hl = parts_bytes(p).len() as int;
            let k = varint_len(10u64) as int;
            let v2 = FieldDescriptorProtoView { name: Some(x), ..d };
            lemma_field_descriptor_proto_step(d, s, k, 10u32, hl - k, v2, depth, limit);
        },
    }
}

/// Reading the field `number` of a `FieldDescriptorProto` written from `o` sets it to `o`, whatever it held; nothing
/// is written, and nothing changes, for `None`.
proof fn lemma_field_descriptor_proto_read_number(d: FieldDescriptorProtoView, o: Option<i32>, rest: Seq<u8>, depth: nat, limit: nat)
    requires
        parts_encodable(opt_field_parts::<raw::Int32>(3u32, o)),
    ensures
        field_descriptor_proto_merged(d, parts_bytes(opt_field_parts::<raw::Int32>(3u32, o)) + rest, depth, limit, false, None) == field_descriptor_proto_merged(if o is Some { FieldDescriptorProtoView { number: o, ..d } } else { d }, rest, depth, limit, false, None),
{
    match o {
        None => {
            assert(parts_bytes(opt_field_parts::<raw::Int32>(3u32, o)) + rest =~= rest);
        },
        Some(x) => {
            let p = field_parts::<raw::Int32>(3u32, x);
            assert(p[1].0);
            let s = parts_bytes(p) + rest;
            lemma_field_bytes_read::<raw::Int32>(3u32, x, rest);
            lemma_tag_value(3u32, WireType::Varint);
            let hl = parts_bytes(p).len() as int;
            let k = varint_len(24u64) as int;
            let v2 = FieldDescriptorProtoView { number: Some(x), ..d };
            lemma_field_descriptor_proto_step(d, s, k, 24u32, hl - k, v2, depth, limit);
        },
    }
}

/// Reading the field `label` of a `FieldDescriptorProto` written from `o` sets it to `o`, whatever it held; nothing
/// is written, and nothing changes, for `None`.
proof fn lemma_field_descriptor_proto_read_label(d: FieldDescriptorProtoView, o: Option<i32>, rest: Seq<u8>, depth: nat, limit: nat)
    requires
        parts_encodable(opt_field_parts::<raw::Enum<field_descriptor_proto::Label>>(4u32, o)),
    ensures
        field_descriptor_proto_merged(d, parts_bytes(opt_field_parts::<raw::Enum<field_descriptor_proto::Label>>(4u32, o)) + rest, depth, limit, false, None) == field_descriptor_proto_merged(if o is Some { FieldDescriptorProtoView { label: o, ..d } } else { d }, rest, depth, limit, false, None),
{
    match o {
        None => {
            assert(parts_bytes(opt_field_parts::<raw::Enum<field_descriptor_proto::Label>>(4u32, o)) + rest =~= rest);
        },
        Some(x) => {
            let p = field_parts::<raw::Enum<field_descriptor_proto::Label>>(4u32, x);
            assert(p[1].0);
            let s = parts_bytes(p) + rest;
            lemma_field_bytes_read::<raw::Enum<field_descriptor_proto::Label>>(4u32, x, rest);
            lemma_tag_value(4u32, WireType::Varint);
            let hl = parts_bytes(p).len() as int;
            let k = varint_len(32u64) as int;
            let v2 = FieldDescriptorProtoView { label: Some(x), ..d };
            lemma_field_descriptor_proto_step(d, s, k, 32u32, hl - k, v2, depth, limit);
        },
    }
}

/// Reading the field `type` of a `FieldDescriptorProto` written from `o` sets it to `o`, whatever it held; nothing
/// is written, and nothing changes, for `None`.
proof fn lemma_field_descriptor_proto_read_field_type(d: FieldDescriptorProtoView, o: Option<i32>, rest: Seq<u8>, depth: nat, limit: nat)
    requires
        parts_encodable(opt_field_parts::<raw::Enum<field_descriptor_proto::Type>>(5u32, o)),
    ensures
        field_descriptor_proto_merged(d, parts_bytes(opt_field_parts::<raw::Enum<field_descriptor_proto::Type>>(5u32, o)) + rest, depth, limit, false, None) == field_descriptor_proto_merged(if o is Some { FieldDescriptorProtoView { field_type: o, ..d } } else { d }, rest, depth, limit, false, None),
{
    match o {
        None => {
            assert(parts_bytes(opt_field_parts::<raw::Enum<field_descriptor_proto::Type>>(5u32, o)) + rest =~= rest);
        },
        Some(x) => {
            let p = field_parts::<raw::Enum<field_descriptor_proto::Type>>(5u32, x);
            assert(p[1].0);
            let s = parts_bytes(p) + rest;
            lemma_field_bytes_read::<raw::Enum<field_descriptor_proto::Type>>(5u32, x, rest);
            lemma_tag_value(5u32, WireType::Varint);
            let hl = parts_bytes(p).len() as int;
            let k = varint_len(40u64) as int;
            let v2 = FieldDescriptorProtoView { field_type: Some(x), ..d };
            lemma_field_descriptor_proto_step(d, s, k, 40u32, hl - k, v2, depth, limit);
        },
    }
}

/// Reading the field `type_name` of a `FieldDescriptorProto` written from `o` sets it to `o`, whatever it held; nothing
/// is written, and nothing changes, for `None`.
proof fn lemma_field_descriptor_proto_read_type_name_text(d: FieldDescriptorProtoView, o: Option<Seq<char>>, rest: Seq<u8>, depth: nat, limit: nat)
    requires
        parts_encodable(opt_field_parts::<raw::String>(6u32, o)),
    ensures
        field_descriptor_proto_merged(d, parts_bytes(opt_field_parts::<raw::String>(6u32, o)) + rest, depth, limit, false, None) == field_descriptor_proto_merged(if o is Some { FieldDescriptorProtoView { type_name_text: o, ..d } } else { d }, rest, depth, limit, false, None),
{
    match o {
        None => {
            assert(parts_bytes(opt_field_parts::<raw::String>(6u32, o)) + rest =~= rest);
        },
        Some(x) => {
            let p = field_parts::<raw::String>(6u32, x);
            assert(p[1].0);
            let s = parts_bytes(p) + rest;
            lemma_field_bytes_read::<raw::String>(6u32, x, rest);
            lemma_tag_value(6u32, WireType::LengthDelimited);
            let hl = parts_bytes(p).len() as int;
            let k = varint_len(50u64) as int;
            let v2 = FieldDescriptorProtoView { type_name_text: Some(x), ..d };
            lemma_field_descriptor_proto_step(d, s, k, 50u32, hl - k, v2, depth, limit);
        },
    }
}

/// Reading the field `extendee` of a `FieldDescriptorProto` written from `o` sets it to `o`, whatever it held; nothing
/// is written, and nothing changes, for `None`.
proof fn lemma_field_descriptor_proto_read_extendee(d: FieldDescriptorProtoView, o: Option<Seq<char>>, rest: Seq<u8>, depth: nat, limit: nat)
    requires
        parts_encodable(opt_field_parts::<raw::String>(2u32, o)),
    ensures
        field_descriptor_proto_merged(d, parts_bytes(opt_field_parts::<raw::String>(2u32, o)) + rest, depth, limit, false, None) == field_descriptor_proto_merged(if o is Some { FieldDescriptorProtoView { extendee: o, ..d } } else { d }, rest, depth, limit, false, None),
{
    match o {
        None => {
            assert(parts_bytes(opt_field_parts::<raw::String>(2u32, o)) + rest =~= rest);
        },
        Some(x) => {
            let p = field_parts::<raw::String>(2u32, x);
            assert(p[1].0);
            let s = parts_bytes(p) + rest;
            lemma_field_bytes_read::<raw::String>(2u32, x, rest);
            lemma_tag_value(2u32, WireType::LengthDelimited);
            let hl = parts_bytes(p).len() as int;
            let k = varint_len(18u64) as int;
            let v2 = FieldDescriptorProtoView { extendee: Some(x), ..d };
            lemma_field_descriptor_proto_step(d, s, k, 18u32, hl - k, v2, depth, limit);
        },
    }
}

/// Reading the field `default_value` of a `FieldDescriptorProto` written from `o` sets it to `o`, whatever it held; nothing
/// is written, and nothing changes, for `None`.
proof fn lemma_field_descriptor_proto_read_default_value(d: FieldDescriptorProtoView, o: Option<Seq<char>>, rest: Seq<u8>, depth: nat, limit: nat)
    requires
        parts_encodable(opt_field_parts::<raw::String>(7u32, o)),
    ensures
        field_descriptor_proto_merged(d, parts_bytes(opt_field_parts::<raw::String>(7u32, o)) + rest, depth, limit, false, None) == field_descriptor_proto_merged(if o is Some { FieldDescriptorProtoView { default_value: o, ..d } } else { d }, rest, depth, limit, false, None),
{
    match o {
        None => {
            assert(parts_bytes(opt_field_parts::<raw::String>(7u32, o)) + rest =~= rest);
        },
        Some(x) => {
            let p = field_parts::<raw::String>(7u32, x);
            assert(p[1].0);
            let s = parts_bytes(p) + rest;
            lemma_field_bytes_read::<raw::String>(7u32, x, rest);
            lemma_tag_value(7u32, WireType::LengthDelimited);
            let hl = parts_bytes(p).len() as int;
            let k = varint_len(58u64) as int;
            let v2 = FieldDescriptorProtoView { default_value: Some(x), ..d };
            lemma_field_descriptor_proto_step(d, s, k, 58u32, hl - k, v2, depth, limit);
        },
    }
}

/// Reading the field `oneof_index` of a `FieldDescriptorProto` written from `o` sets it to `o`, whatever it held; nothing
/// is written, and nothing changes, for `None`.
proof fn lemma_field_descriptor_proto_read_oneof_index(d: FieldDescriptorProtoView, o: Option<i32>, rest: Seq<u8>, depth: nat, limit: nat)
    requires
        parts_encodable(opt_field_parts::<raw::Int32>(9u32, o)),
    ensures
        field_descriptor_proto_merged(d, parts_bytes(opt_field_parts::<raw::Int32>(9u32, o)) + rest, depth, limit, false, None) == field_descriptor_proto_merged(if o is Some { FieldDescriptorProtoView { oneof_index: o, ..d } } else { d }, rest, depth, limit, false, None),
{
    match o {
        None => {
            assert(parts_bytes(opt_field_parts::<raw::Int32>(9u32, o)) + rest =~= rest);
        },
        Some(x) => {
            let p = field_parts::<raw::Int32>(9u32, x);
            assert(p[1].0);
            let s = parts_bytes(p) + rest;
            lemma_field_bytes_read::<raw::Int32>(9u32, x, rest);
            lemma_tag_value(9u32, WireType::Varint);
            let hl = parts_bytes(p).len() as int;
            let k = varint_len(72u64) as int;
            let v2 = FieldDescriptorProtoView { oneof_index: Some(x), ..d };
            lemma_field_descriptor_proto_step(d, s, k, 72u32, hl - k, v2, depth, limit);
        },
    }
}

/// Reading the field `json_name` of a `FieldDescriptorProto` written from `o` sets it to `o`, whatever it held; nothing
/// is written, and nothing changes, for `None`.
proof fn lemma_field_descriptor_proto_read_json_name(d: FieldDescriptorProtoView, o: Option<Seq<char>>, rest: Seq<u8>, depth: nat, limit: nat)
    requires
        parts_encodable(opt_field_parts::<raw::String>(10u32, o)),
    ensures
        field_descriptor_proto_merged(d, parts_bytes(opt_field_parts::<raw::String>(10u32, o)) + rest, depth, limit, false, None) == field_descriptor_proto_merged(if o is Some { FieldDescriptorProtoView { json_name: o, ..d } } else { d }, rest, depth, limit, false, None),
{
    match o {
        None => {
            assert(parts_bytes(opt_field_parts::<raw::String>(10u32, o)) + rest =~= rest);
        },
        Some(x) => {
            let p = field_parts::<raw::String>(10u32, x);
            assert(p[1].0);
            let s = parts_bytes(p) + rest;
            lemma_field_bytes_read::<raw::String>(10u32, x, rest);
            lemma_tag_value(10u32, WireType::LengthDelimited);
            let hl = parts_bytes(p).len() as int;
            let k = varint_len(82u64) as int;
            let v2 = FieldDescriptorProtoView { json_name: Some(x), ..d };
            lemma_field_descriptor_proto_step(d, s, k, 82u32, hl - k, v2, depth, limit);
        },
    }
}

/// Reading the field `options` of a `FieldDescriptorProto` written from `o`, where the message does not hold it,
/// sets it to `o`; nothing is written, and nothing changes, for `None`.
#[verifier::rlimit(40)]
proof fn lemma_field_descriptor_proto_read_options(d: FieldDescriptorProtoView, o: Option<FieldOptionsView>, rest: Seq<u8>, depth: nat, limit: nat)
    requires
        o is Some ==> d.options is None,
        parts_encodable(field_options_opt_parts(8u32, o)),
        o matches Some(y) ==> depth < limit && field_options_roundtrips(y, depth + 1, limit),
    ensures
        field_descriptor_proto_merged(d, parts_bytes(field_options_opt_parts(8u32, o)) + rest, depth, limit, false, None) == field_descriptor_proto_merged(if o is Some { FieldDescriptorProtoView { options: o, ..d } } else { d }, rest, depth, limit, false, None),
{
    match o {
        None => {
            assert(parts_bytes(field_options_opt_parts(8u32, o)) + rest =~= rest);
        },
        Some(y) => {
            let ep = entry_parts(8u32, field_options_parts(y));
            assert(ep[1].0);
            let s = parts_bytes(ep) + rest;
            lemma_entry_bytes_read(8u32, field_options_parts(y), rest);
            lemma_tag_value(8u32, WireType::LengthDelimited);
            lemma_parts_encodable_two(entry_head(8u32, field_options_parts(y)), field_options_parts(y));
            lemma_field_options_roundtrip(y, depth + 1, limit);
            let hl = parts_bytes(ep).len() as int;
            let k = varint_len(66u64) as int;
            let v2 = FieldDescriptorProtoView { options: Some(y), ..d };
            lemma_field_descriptor_proto_step(d, s, k, 66u32, hl - k, v2, depth, limit);
            assert(s.skip(hl) == rest);
        },
    }
}

/// Reading the field `options` of a `FieldDescriptorProto` merges what is read into the value the message already
/// holds there (or into a default value, where it holds none): the field read from the bytes
/// written from `y` becomes the existing value with the bytes of `y` merged into it, and the
/// rest is read into the message so changed. Past the recursion limit the read is refused.
#[verifier::rlimit(40)]
pub proof fn lemma_field_descriptor_proto_merge_options(d: FieldDescriptorProtoView, y: FieldOptionsView, rest: Seq<u8>, depth: nat, limit: nat)
    requires
        parts_encodable(field_options_opt_parts(8u32, Some(y))),
    ensures
        field_descriptor_proto_merged(d, parts_bytes(field_options_opt_parts(8u32, Some(y))) + rest, depth, limit, false, None) == if depth >= limit {
            Err::<FieldDescriptorProtoView, ReadError>(ReadError::RecursionLimitExceeded)
        } else {
            match field_options_merged(match d.options { Some(o) => o, None => field_options_default() }, parts_bytes(field_options_parts(y)), depth + 1, limit, false, None) {
                Ok(z) => field_descriptor_proto_merged(FieldDescriptorProtoView { options: Some(z), ..d }, rest, depth, limit, false, None),
                Err(e) => Err(e),
            }
        },
{
    let ep = entry_parts(8u32, field_options_parts(y));
    assert(field_options_opt_parts(8u32, Some(y)) == ep);
    assert(ep[1].0);
    let s = parts_bytes(ep) + rest;
    lemma_entry_bytes_read(8u32, field_options_parts(y), rest);
    lemma_tag_value(8u32, WireType::LengthDelimited);
    let hl = parts_bytes(ep).len() as int;
    let k = varint_len(66u64) as int;
    assert((66u64 as u64) as u32 == 66u32);
    if depth < limit {
        match field_options_merged(match d.options { Some(o) => o, None => field_options_default() }, parts_bytes(field_options_parts(y)), depth + 1, limit, false, None) {
            Ok(z) => {
                let v2 = FieldDescriptorProtoView { options: Some(z), ..d };
                lemma_field_descriptor_proto_step(d, s, k, 66u32, hl - k, v2, depth, limit);
                assert(s.skip(hl) == rest);
            },
            Err(e) => {},
        }
    }
}

/// Merging the bytes written for the field `options` of a `FieldDescriptorProto` from `y` into `d` merges `y` into
/// the value `d` holds there (or into a default value, where it holds none), as merging
/// messages does, where `y` is read back as written and the existing value holds none of the
/// message fields `y` holds.
pub proof fn lemma_field_descriptor_proto_merge_options_written(d: FieldDescriptorProtoView, y: FieldOptionsView, rest: Seq<u8>, depth: nat, limit: nat)
    requires
        parts_encodable(field_options_opt_parts(8u32, Some(y))),
        depth < limit,
        field_options_roundtrips(y, depth + 1, limit),
    ensures
        field_descriptor_proto_merged(d, parts_bytes(field_options_opt_parts(8u32, Some(y))) + rest, depth, limit, false, None) == field_descriptor_proto_merged(FieldDescriptorProtoView { options: Some(field_options_merge_view(match d.options { Some(o) => o, None => field_options_default() }, y)), ..d }, rest, depth, limit, false, None),
{
    lemma_field_descriptor_proto_merge_options(d, y, rest, depth, limit);
    lemma_parts_encodable_two(entry_head(8u32, field_options_parts(y)), field_options_parts(y));
    assert(field_options_opt_parts(8u32, Some(y)) == entry_parts(8u32, field_options_parts(y)));
    lemma_field_options_merge_written(match d.options { Some(o) => o, None => field_options_default() }, y, depth + 1, limit);
}

/// Reading unknown field values written one after the other into a `FieldDescriptorProto`, none with the tag
/// of one of its fields, adds them to its unknown fields.
#[verifier::rlimit(60)]
proof fn lemma_field_descriptor_proto_read_unknown(v: FieldDescriptorProtoView, ps: Seq<(u32, FieldValue)>, rest: Seq<u8>, depth: nat, limit: nat)
    requires
        forall|k: int| 0 <= k < ps.len() ==> value_readable(#[trigger] ps[k].0, ps[k].1) && !field_descriptor_proto_known_tag(
            tag_value(ps[k].0, field_value_wire_type(ps[k].1)),
        ),
    ensures
        field_descriptor_proto_merged(v, parts_bytes(pairs_parts(ps)) + rest, depth, limit, false, None) == field_descriptor_proto_merged(
            FieldDescriptorProtoView { unknown_fields: push_pairs(v.unknown_fields, ps), ..v },
            rest,
            depth, limit, false, None,
        ),
    decreases ps.len(),
{
    if ps.len() == 0 {
        assert(parts_bytes(pairs_parts(ps)) + rest =~= rest);
    } else {
        let n = ps[0].0;
        let fv = ps[0].1;
        let tail = ps.drop_first();
        assert forall|k: int| 0 <= k < tail.len() implies value_readable(#[trigger] tail[k].0, tail[k].1) && !field_descriptor_proto_known_tag(
            tag_value(tail[k].0, field_value_wire_type(tail[k].1)),
        ) by {
            assert(tail[k] == ps[k + 1]);
        }
        assert(value_readable(ps[0].0, ps[0].1));
        lemma_parts_bytes_append(field_value_parts(n, fv), pairs_parts(tail));
        let after = parts_bytes(pairs_parts(tail)) + rest;
        let s = parts_bytes(pairs_parts(ps)) + rest;
        assert(s =~= parts_bytes(field_value_parts(n, fv)) + after);
        lemma_read_value_bytes(n, fv, after);
        let t = tag_value(n, field_value_wire_type(fv));
        let hl = parts_bytes(field_value_parts(n, fv)).len() as int;
        let k = varint_len(t as u64) as int;
        let v2 = FieldDescriptorProtoView { unknown_fields: view_push(v.unknown_fields, n, fv), ..v };
        lemma_field_descriptor_proto_step(v, s, k, t, hl - k, v2, depth, limit);
        lemma_field_descriptor_proto_read_unknown(v2, tail, rest, depth, limit);
    }
}

/// The writability of the parts of a `FieldDescriptorProto` is that of each field's parts.
proof fn lemma_field_descriptor_proto_parts_encodable(v: FieldDescriptorProtoView)
    ensures
        parts_encodable(field_descriptor_proto_parts(v)) == (parts_encodable(opt_field_parts::<raw::String>(1u32, v.name)) && parts_encodable(opt_field_parts::<raw::String>(2u32, v.extendee)) && parts_encodable(opt_field_parts::<raw::Int32>(3u32, v.number)) && parts_encodable(opt_field_parts::<raw::Enum<field_descriptor_proto::Label>>(4u32, v.label)) && parts_encodable(opt_field_parts::<raw::Enum<field_descriptor_proto::Type>>(5u32, v.field_type)) && parts_encodable(opt_field_parts::<raw::String>(6u32, v.type_name_text)) && parts_encodable(opt_field_parts::<raw::String>(7u32, v.default_value)) && parts_encodable(field_options_opt_parts(8u32, v.options)) && parts_encodable(opt_field_parts::<raw::Int32>(9u32, v.oneof_index)) && parts_encodable(opt_field_parts::<raw::String>(10u32, v.json_name)) && parts_encodable(set_parts(v.unknown_fields))),
{
    reveal(field_descriptor_proto_parts);
    let p0 = opt_field_parts::<raw::String>(1u32, v.name);
    let p1 = opt_field_parts::<raw::String>(2u32, v.extendee);
    let p2 = opt_field_parts::<raw::Int32>(3u32, v.number);
    let p3 = opt_field_parts::<raw::Enum<field_descriptor_proto::Label>>(4u32, v.label);
    let p4 = opt_field_parts::<raw::Enum<field_descriptor_proto::Type>>(5u32, v.field_type);
    let p5 = opt_field_parts::<raw::String>(6u32, v.type_name_text);
    let p6 = opt_field_parts::<raw::String>(7u32, v.default_value);
    let p7 = field_options_opt_parts(8u32, v.options);
    let p8 = opt_field_parts::<raw::Int32>(9u32, v.oneof_index);
    let p9 = opt_field_parts::<raw::String>(10u32, v.json_name);
    let p10 = set_parts(v.unknown_fields);
    let q10 = p10;
    let q9 = p9 + q10;
    lemma_parts_encodable_two(p9, q10);
    let q8 = p8 + q9;
    lemma_parts_encodable_two(p8, q9);
    let q7 = p7 + q8;
    lemma_parts_encodable_two(p7, q8);
    let q6 = p6 + q7;
    lemma_parts_encodable_two(p6, q7);
    let q5 = p5 + q6;
    lemma_parts_encodable_two(p5, q6);
    let q4 = p4 + q5;
    lemma_parts_encodable_two(p4, q5);
    let q3 = p3 + q4;
    lemma_parts_encodable_two(p3, q4);
    let q2 = p2 + q3;
    lemma_parts_encodable_two(p2, q3);
    let q1 = p1 + q2;
    lemma_parts_encodable_two(p1, q2);
    let q0 = p0 + q1;
    lemma_parts_encodable_two(p0, q1);
    assert(field_descriptor_proto_parts(v) == q0);
}

/// The bytes of the parts of a `FieldDescriptorProto` are those of each field's parts, one after the other.
proof fn lemma_field_descriptor_proto_parts_bytes(v: FieldDescriptorProtoView)
    ensures
        parts_bytes(field_descriptor_proto_parts(v)) == parts_bytes(opt_field_parts::<raw::String>(1u32, v.name)) + (parts_bytes(opt_field_parts::<raw::String>(2u32, v.extendee)) + (parts_bytes(opt_field_parts::<raw::Int32>(3u32, v.number)) + (parts_bytes(opt_field_parts::<raw::Enum<field_descriptor_proto::Label>>(4u32, v.label)) + (parts_bytes(opt_field_parts::<raw::Enum<field_descriptor_proto::Type>>(5u32, v.field_type)) + (parts_bytes(opt_field_parts::<raw::String>(6u32, v.type_name_text)) + (parts_bytes(opt_field_parts::<raw::String>(7u32, v.default_value)) + (parts_bytes(field_options_opt_parts(8u32, v.options)) + (parts_bytes(opt_field_parts::<raw::Int32>(9u32, v.oneof_index)) + (parts_bytes(opt_field_parts::<raw::String>(10u32, v.json_name)) + parts_bytes(set_parts(v.unknown_fields))))))))))),
{
    reveal(field_descriptor_proto_parts);
    let p0 = opt_field_parts::<raw::String>(1u32, v.name);
    let p1 = opt_field_parts::<raw::String>(2u32, v.extendee);
    let p2 = opt_field_parts::<raw::Int32>(3u32, v.number);
    let p3 = opt_field_parts::<raw::Enum<field_descriptor_proto::Label>>(4u32, v.label);
    let p4 = opt_field_parts::<raw::Enum<field_descriptor_proto::Type>>(5u32, v.field_type);
    let p5 = opt_field_parts::<raw::String>(6u32, v.type_name_text);
    let p6 = opt_field_parts::<raw::String>(7u32, v.default_value);
    let p7 = field_options_opt_parts(8u32, v.options);
    let p8 = opt_field_parts::<raw::Int32>(9u32, v.oneof_index);
    let p9 = opt_field_parts::<raw::String>(10u32, v.json_name);
    let p10 = set_parts(v.unknown_fields);
    let q10 = p10;
    let q9 = p9 + q10;
    lemma_parts_bytes_append(p9, q10);
    let q8 = p8 + q9;
    lemma_parts_bytes_append(p8, q9);
    let q7 = p7 + q8;
    lemma_parts_bytes_append(p7, q8);
    let q6 = p6 + q7;
    lemma_parts_bytes_append(p6, q7);
    let q5 = p5 + q6;
    lemma_parts_bytes_append(p5, q6);
    let q4 = p4 + q5;
    lemma_parts_bytes_append(p4, q5);
    let q3 = p3 + q4;
    lemma_parts_bytes_append(p3, q4);
    let q2 = p2 + q3;
    lemma_parts_bytes_append(p2, q3);
    let q1 = p1 + q2;
    lemma_parts_bytes_append(p1, q2);
    let q0 = p0 + q1;
    lemma_parts_bytes_append(p0, q1);
    assert(field_descriptor_proto_parts(v) == q0);
}

/// The message a `FieldDescriptorProto` `d` becomes when `v` is merged into it: each field `v` holds once
/// replaces the one `d` holds, the values of each repeated field of `v` follow those of `d`,
/// and the unknown fields of `v` are added to those of `d`, field number by field number.
pub open spec fn field_descriptor_proto_merge_view(d: FieldDescriptorProtoView, v: FieldDescriptorProtoView) -> FieldDescriptorProtoView {
    FieldDescriptorProtoView { name: newer_or(v.name, d.name), number: newer_or(v.number, d.number), label: newer_or(v.label, d.label), field_type: newer_or(v.field_type, d.field_type), type_name_text: newer_or(v.type_name_text, d.type_name_text), extendee: newer_or(v.extendee, d.extendee), default_value: newer_or(v.default_value, d.default_value), oneof_index: newer_or(v.oneof_index, d.oneof_index), json_name: newer_or(v.json_name, d.json_name), options: newer_or(v.options, d.options), unknown_fields: view_merge(d.unknown_fields, v.unknown_fields) }
}

/// Reading the bytes of the parts of a `FieldDescriptorProto` `v`, field by field, into `d` merges `v` into `d`.
#[verifier::spinoff_prover]
#[verifier::rlimit(60)]
proof fn lemma_field_descriptor_proto_merge_all(d: FieldDescriptorProtoView, v: FieldDescriptorProtoView, depth: nat, limit: nat)
    requires
        parts_encodable(opt_field_parts::<raw::String>(1u32, v.name)),
        parts_encodable(opt_field_parts::<raw::String>(2u32, v.extendee)),
        parts_encodable(opt_field_parts::<raw::Int32>(3u32, v.number)),
        parts_encodable(opt_field_parts::<raw::Enum<field_descriptor_proto::Label>>(4u32, v.label)),
        parts_encodable(opt_field_parts::<raw::Enum<field_descriptor_proto::Type>>(5u32, v.field_type)),
        parts_encodable(opt_field_parts::<raw::String>(6u32, v.type_name_text)),
        parts_encodable(opt_field_parts::<raw::String>(7u32, v.default_value)),
        parts_encodable(field_options_opt_parts(8u32, v.options)),
        parts_encodable(opt_field_parts::<raw::Int32>(9u32, v.oneof_index)),
        parts_encodable(opt_field_parts::<raw::String>(10u32, v.json_name)),
        field_descriptor_proto_roundtrips(v, depth, limit),
        v.options is Some ==> d.options is None,
        parts_bytes(field_descriptor_proto_parts(v)) == parts_bytes(opt_field_parts::<raw::String>(1u32, v.name)) + (parts_bytes(opt_field_parts::<raw::String>(2u32, v.extendee)) + (parts_bytes(opt_field_parts::<raw::Int32>(3u32, v.number)) + (parts_bytes(opt_field_parts::<raw::Enum<field_descriptor_proto::Label>>(4u32, v.label)) + (parts_bytes(opt_field_parts::<raw::Enum<field_descriptor_proto::Type>>(5u32, v.field_type)) + (parts_bytes(opt_field_parts::<raw::String>(6u32, v.type_name_text)) + (parts_bytes(opt_field_parts::<raw::String>(7u32, v.default_value)) + (parts_bytes(field_options_opt_parts(8u32, v.options)) + (parts_bytes(opt_field_parts::<raw::Int32>(9u32, v.oneof_index)) + (parts_bytes(opt_field_parts::<raw::String>(10u32, v.json_name)) + parts_bytes(set_parts(v.unknown_fields))))))))))),
    ensures
        field_descriptor_proto_merged(d, parts_bytes(field_descriptor_proto_parts(v)), depth, limit, false, None) == Ok::<FieldDescriptorProtoView, ReadError>(field_descriptor_proto_merge_view(d, v)),
{
    let p0 = opt_field_parts::<raw::String>(1u32, v.name);
    let p1 = opt_field_parts::<raw::String>(2u32, v.extendee);
    let p2 = opt_field_parts::<raw::Int32>(3u32, v.number);
    let p3 = opt_field_parts::<raw::Enum<field_descriptor_proto::Label>>(4u32, v.label);
    let p4 = opt_field_parts::<raw::Enum<field_descriptor_proto::Type>>(5u32, v.field_type);
    let p5 = opt_field_parts::<raw::String>(6u32, v.type_name_text);
    let p6 = opt_field_parts::<raw::String>(7u32, v.default_value);
    let p7 = field_options_opt_parts(8u32, v.options);
    let p8 = opt_field_parts::<raw::Int32>(9u32, v.oneof_index);
    let p9 = opt_field_parts::<raw::String>(10u32, v.json_name);
    let p10 = set_parts(v.unknown_fields);
    let b0 = parts_bytes(p0);
    let b1 = parts_bytes(p1);
    let b2 = parts_bytes(p2);
    let b3 = parts_bytes(p3);
    let b4 = parts_bytes(p4);
    let b5 = parts_bytes(p5);
    let b6 = parts_bytes(p6);
    let b7 = parts_bytes(p7);
    let b8 = parts_bytes(p8);
    let b9 = parts_bytes(p9);
    let b10 = parts_bytes(p10);
    let r10 = b10;
    let r9 = b9 + r10;
    let r8 = b8 + r9;
    let r7 = b7 + r8;
    let r6 = b6 + r7;
    let r5 = b5 + r6;
    let r4 = b4 + r5;
    let r3 = b3 + r4;
    let r2 = b2 + r3;
    let r1 = b1 + r2;
    let r0 = b0 + r1;
    let d0 = d;
    let d1 = FieldDescriptorProtoView { name: newer_or(v.name, d.name), ..d0 };
    assert(field_descriptor_proto_merged(d0, r0, depth, limit, false, None) == field_descriptor_proto_merged(d1, r1, depth, limit, false, None)) by {
        lemma_field_descriptor_proto_read_name(d0, v.name, r1, depth, limit);
        assert((if v.name is Some { FieldDescriptorProtoView { name: v.name, ..d0 } } else { d0 }) == d1);
    }
    let d2 = FieldDescriptorProtoView { extendee: newer_or(v.extendee, d.extendee), ..d1 };
    assert(field_descriptor_proto_merged(d1, r1, depth, limit, false, None) == field_descriptor_proto_merged(d2, r2, depth, limit, false, None)) by {
        lemma_field_descriptor_proto_read_extendee(d1, v.extendee, r2, depth, limit);
        assert((if v.extendee is Some { FieldDescriptorProtoView { extendee: v.extendee, ..d1 } } else { d1 }) == d2);
    }
    let d3 = FieldDescriptorProtoView { number: newer_or(v.number, d.number), ..d2 };
    assert(field_descriptor_proto_merged(d2, r2, depth, limit, false, None) == field_descriptor_proto_merged(d3, r3, depth, limit, false, None)) by {
        lemma_field_descriptor_proto_read_number(d2, v.number, r3, depth, limit);
        assert((if v.number is Some { FieldDescriptorProtoView { number: v.number, ..d2 } } else { d2 }) == d3);
    }
    let d4 = FieldDescriptorProtoView { label: newer_or(v.label, d.label), ..d3 };
    assert(field_descriptor_proto_merged(d3, r3, depth, limit, false, None) == field_descriptor_proto_merged(d4, r4, depth, limit, false, None)) by {
        lemma_field_descriptor_proto_read_label(d3, v.label, r4, depth, limit);
        assert((if v.label is Some { FieldDescriptorProtoView { label: v.label, ..d3 } } else { d3 }) == d4);
    }
    let d5 = FieldDescriptorProtoView { field_type: newer_or(v.field_type, d.field_type), ..d4 };
    assert(field_descriptor_proto_merged(d4, r4, depth, limit, false, None) == field_descriptor_proto_merged(d5, r5, depth, limit, false, None)) by {
        lemma_field_descriptor_proto_read_field_type(d4, v.field_type, r5, depth, limit);
        assert((if v.field_type is Some { FieldDescriptorProtoView { field_type: v.field_type, ..d4 } } else { d4 }) == d5);
    }
    let d6 = FieldDescriptorProtoView { type_name_text: newer_or(v.type_name_text, d.type_name_text), ..d5 };
    assert(field_descriptor_proto_merged(d5, r5, depth, limit, false, None) == field_descriptor_proto_merged(d6, r6, depth, limit, false, None)) by {
        lemma_field_descriptor_proto_read_type_name_text(d5, v.type_name_text, r6, depth, limit);
        assert((if v.type_name_text is Some { FieldDescriptorProtoView { type_name_text: v.type_name_text, ..d5 } } else { d5 }) == d6);
    }
    let d7 = FieldDescriptorProtoView { default_value: newer_or(v.default_value, d.default_value), ..d6 };
    assert(field_descriptor_proto_merged(d6, r6, depth, limit, false, None) == field_descriptor_proto_merged(d7, r7, depth, limit, false, None)) by {
        lemma_field_descriptor_proto_read_default_value(d6, v.default_value, r7, depth, limit);
        assert((if v.default_value is Some { FieldDescriptorProtoView { default_value: v.default_value, ..d6 } } else { d6 }) == d7);
    }
    let d8 = FieldDescriptorProtoView { options: newer_or(v.options, d.options), ..d7 };
    assert(field_descriptor_proto_merged(d7, r7, depth, limit, false, None) == field_descriptor_proto_merged(d8, r8, depth, limit, false, None)) by {
        lemma_field_descriptor_proto_read_options(d7, v.options, r8, depth, limit);
        assert((if v.options is Some { FieldDescriptorProtoView { options: v.options, ..d7 } } else { d7 }) == d8);
    }
    let d9 = FieldDescriptorProtoView { oneof_index: newer_or(v.oneof_index, d.oneof_index), ..d8 };
    assert(field_descriptor_proto_merged(d8, r8, depth, limit, false, None) == field_descriptor_proto_merged(d9, r9, depth, limit, false, None)) by {
        lemma_field_descriptor_proto_read_oneof_index(d8, v.oneof_index, r9, depth, limit);
        assert((if v.oneof_index is Some { FieldDescriptorProtoView { oneof_index: v.oneof_index, ..d8 } } else { d8 }) == d9);
    }
    let d10 = FieldDescriptorProtoView { json_name: newer_or(v.json_name, d.json_name), ..d9 };
    assert(field_descriptor_proto_merged(d9, r9, depth, limit, false, None) == field_descriptor_proto_merged(d10, r10, depth, limit, false, None)) by {
        lemma_field_descriptor_proto_read_json_name(d9, v.json_name, r10, depth, limit);
        assert((if v.json_name is Some { FieldDescriptorProtoView { json_name: v.json_name, ..d9 } } else { d9 }) == d10);
    }
    let ps = set_pairs(v.unknown_fields);
    assert(field_descriptor_proto_merged(d10, r10, depth, limit, false, None) == Ok::<FieldDescriptorProtoView, ReadError>(field_descriptor_proto_merge_view(d, v))) by {
        lemma_set_pairs(v.unknown_fields, d.unknown_fields);
        lemma_entries_readable(v.unknown_fields);
        assert forall|k: int| 0 <= k < ps.len() implies value_readable(#[trigger] ps[k].0, ps[k].1) && !field_descriptor_proto_known_tag(
            tag_value(ps[k].0, field_value_wire_type(ps[k].1)),
        ) by {
            assert(!field_descriptor_proto_known_tag(tag_value(set_pairs(v.unknown_fields)[k].0, field_value_wire_type(set_pairs(v.unknown_fields)[k].1))));
        }
        lemma_field_descriptor_proto_read_unknown(d10, ps, Seq::empty(), depth, limit);
        assert(b10 + Seq::<u8>::empty() =~= b10);
        let dl = FieldDescriptorProtoView { unknown_fields: push_pairs(d10.unknown_fields, ps), ..d10 };
        assert(dl == field_descriptor_proto_merge_view(d, v));
    }
}

/// Reading the bytes of the parts of a `FieldDescriptorProto`, field by field, gives the message back.
proof fn lemma_field_descriptor_proto_read_all(v: FieldDescriptorProtoView, depth: nat, limit: nat)
    requires
        parts_encodable(opt_field_parts::<raw::String>(1u32, v.name)),
        parts_encodable(opt_field_parts::<raw::String>(2u32, v.extendee)),
        parts_encodable(opt_field_parts::<raw::Int32>(3u32, v.number)),
        parts_encodable(opt_field_parts::<raw::Enum<field_descriptor_proto::Label>>(4u32, v.label)),
        parts_encodable(opt_field_parts::<raw::Enum<field_descriptor_proto::Type>>(5u32, v.field_type)),
        parts_encodable(opt_field_parts::<raw::String>(6u32, v.type_name_text)),
        parts_encodable(opt_field_parts::<raw::String>(7u32, v.default_value)),
        parts_encodable(field_options_opt_parts(8u32, v.options)),
        parts_encodable(opt_field_parts::<raw::Int32>(9u32, v.oneof_index)),
        parts_encodable(opt_field_parts::<raw::String>(10u32, v.json_name)),
        field_descriptor_proto_roundtrips(v, depth, limit),
        parts_bytes(field_descriptor_proto_parts(v)) == parts_bytes(opt_field_parts::<raw::String>(1u32, v.name)) + (parts_bytes(opt_field_parts::<raw::String>(2u32, v.extendee)) + (parts_bytes(opt_field_parts::<raw::Int32>(3u32, v.number)) + (parts_bytes(opt_field_parts::<raw::Enum<field_descriptor_proto::Label>>(4u32, v.label)) + (parts_bytes(opt_field_parts::<raw::Enum<field_descriptor_proto::Type>>(5u32, v.field_type)) + (parts_bytes(opt_field_parts::<raw::String>(6u32, v.type_name_text)) + (parts_bytes(opt_field_parts::<raw::String>(7u32, v.default_value)) + (parts_bytes(field_options_opt_parts(8u32, v.options)) + (parts_bytes(opt_field_parts::<raw::Int32>(9u32, v.oneof_index)) + (parts_bytes(opt_field_parts::<raw::String>(10u32, v.json_name)) + parts_bytes(set_parts(v.unknown_fields))))))))))),
    ensures
        field_descriptor_proto_merged(field_descriptor_proto_default(), parts_bytes(field_descriptor_proto_parts(v)), depth, limit, false, None) == Ok::<FieldDescriptorProtoView, ReadError>(v),
{
    lemma_field_descriptor_proto_merge_all(field_descriptor_proto_default(), v, depth, limit);
    lemma_entries_readable(v.unknown_fields);
    lemma_merge_into_empty(v.unknown_fields);
    assert(field_descriptor_proto_merge_view(field_descriptor_proto_default(), v) == v);
}

/// Merging what a `FieldDescriptorProto` `v` writes into a message `d` merges `v` into `d`: each field `v`
/// holds replaces the one `d` holds, repeated values follow those `d` holds, and unknown fields
/// are added to those of `d`, where `d` holds none of the message fields `v` holds (those are
/// merged into each other), at nesting depth `depth` of a reader with recursion limit `limit`
/// that keeps unknown fields, outside any group, where `v` is read back as written.
pub proof fn lemma_field_descriptor_proto_merge_written(d: FieldDescriptorProtoView, v: FieldDescriptorProtoView, depth: nat, limit: nat)
    requires
        parts_encodable(field_descriptor_proto_parts(v)),
        field_descriptor_proto_roundtrips(v, depth, limit),
        v.options is Some ==> d.options is None,
    ensures
        field_descriptor_proto_merged(d, parts_bytes(field_descriptor_proto_parts(v)), depth, limit, false, None) == Ok::<FieldDescriptorProtoView, ReadError>(field_descriptor_proto_merge_view(d, v)),
{
    lemma_field_descriptor_proto_parts_encodable(v);
    lemma_field_descriptor_proto_parts_bytes(v);
    lemma_field_descriptor_proto_merge_all(d, v, depth, limit);
}

/// A `FieldDescriptorProto` is read back as it is written: merging the bytes of its parts into a default
/// message, at nesting depth `depth` of a reader with recursion limit `limit` that keeps
/// unknown fields, outside any group, gives the message back, where it is read back as written.
pub proof fn lemma_field_descriptor_proto_roundtrip(v: FieldDescriptorProtoView, depth: nat, limit: nat)
    requires
        parts_encodable(field_descriptor_proto_parts(v)),
        field_descriptor_proto_roundtrips(v, depth, limit),
    ensures
        field_descriptor_proto_merged(field_descriptor_proto_default(), parts_bytes(field_descriptor_proto_parts(v)), depth, limit, false, None) == Ok::<FieldDescriptorProtoView, ReadError>(v),
{
    lemma_field_descriptor_proto_parts_encodable(v);
    lemma_field_descriptor_proto_parts_bytes(v);
    lemma_field_descriptor_proto_read_all(v, depth, limit);
}

/// The `OneofDescriptorProto` message of `descriptor.proto`.
#[derive(Clone, Debug)]
pub struct OneofDescriptorProto {
    name: Option<String>,
    options: Option<OneofOptions>,
    unknown_fields: UnknownFieldSet,
}

/// The view of a `OneofDescriptorProto`: its fields, and its unknown fields.
pub struct OneofDescriptorProtoView {
    /// The `name` field.
    pub name: Option<Seq<char>>,
    /// The `options` field.
    pub options: Option<OneofOptionsView>,
    /// The unknown fields.
    pub unknown_fields: Seq<(u32, Seq<FieldValue>)>,
}

/// The view of a `OneofDescriptorProto` value.
pub closed spec fn oneof_descriptor_proto_view(m: OneofDescriptorProto) -> OneofDescriptorProtoView
{
    OneofDescriptorProtoView {
        name: opt_view(m.name),
        options: match m.options { Some(x) => Some(oneof_options_view(x)), None => None },
        unknown_fields: m.unknown_fields@,
    }
}

/// The views of a run of `OneofDescriptorProto` values.
pub closed spec fn oneof_descriptor_proto_seq_view(s: Seq<OneofDescriptorProto>) -> Seq<OneofDescriptorProtoView>
    decreases s,
{
    if s.len() == 0 {
        Seq::empty()
    } else {
        oneof_descriptor_proto_seq_view(s.subrange(0, s.len() - 1)).push(oneof_descriptor_proto_view(s[s.len() - 1]))
    }
}

/// The view of a `OneofDescriptorProto` with no field set.
pub open spec fn oneof_descriptor_proto_default() -> OneofDescriptorProtoView {
    OneofDescriptorProtoView {
        name: None,
        options: None,
        unknown_fields: Seq::empty(),
    }
}

impl View for OneofDescriptorProto {
    type V = OneofDescriptorProtoView;

    open spec fn view(&self) -> OneofDescriptorProtoView {
        oneof_descriptor_proto_view(*self)
    }
}

impl Default for OneofDescriptorProto {
    /// A message with no field set.
    fn default() -> (r: OneofDescriptorProto)
        ensures
            r@ == oneof_descriptor_proto_default(),
    {
        let r = OneofDescriptorProto {
            name: None,
            options: None,
            unknown_fields: UnknownFieldSet::new(),
        };
        proof {
            assert(r@ =~= oneof_descriptor_proto_default());
        }
        r
    }
}

impl OneofDescriptorProto {
    /// Gets the `name` field, or its default, the empty string.
    pub fn name(&self) -> (r: &str)
        ensures
            r@ == text_or_empty(self@.name),
    {
        proof {
            reveal_strlit("");
        }
        match &self.name {
            Some(s) => s.as_str(),
            None => "",
        }
    }

    /// Gets the `name` field if it is set.
    pub fn name_option(&self) -> (r: Option<&String>)
        ensures
            opt_ref_view(r) == self@.name,
    {
        self.name.as_ref()
    }

    /// Gets the `name` field for changing it, setting it to its type's default first if it
    /// is not set.
    pub fn name_mut(&mut self) -> (r: &mut String)
        ensures
            (*r)@ == old(self)@.name.unwrap_or(Seq::<char>::empty()),
            final(self)@ == (OneofDescriptorProtoView { name: Some((*final(r))@), ..old(self)@ }),
    {
        self.name.get_or_insert(String::new())
    }

    /// Returns whether the `name` field is set.
    pub fn has_name(&self) -> (r: bool)
        ensures
            r == self@.name is Some,
    {
        self.name.is_some()
    }

    /// Sets the `name` field.
    pub fn set_name(&mut self, value: String)
        ensures
            final(self)@ == (OneofDescriptorProtoView { name: Some(value@), ..old(self)@ }),
    {
        self.name = Some(value);
    }

    /// Takes the `name` field out, leaving it unset.
    pub fn take_name(&mut self) -> (r: Option<String>)
        ensures
            opt_view(r) == old(self)@.name,
            final(self)@ == (OneofDescriptorProtoView { name: None, ..old(self)@ }),
    {
        self.name.take()
    }

    /// Clears the `name` field, leaving it unset.
    pub fn clear_name(&mut self)
        ensures
            final(self)@ == (OneofDescriptorProtoView { name: None, ..old(self)@ }),
    {
        self.name = None;
    }

    /// Gets the `options` field if it is set.
    pub fn options_option(&self) -> (r: Option<&OneofOptions>)
        ensures
            opt_ref_view(r) == self@.options,
    {
        self.options.as_ref()
    }

    /// Gets the `options` field for changing it, setting it to its type's default first if it
    /// is not set.
    pub fn options_mut(&mut self) -> (r: &mut OneofOptions)
        ensures
            (*r)@ == old(self)@.options.unwrap_or(oneof_options_default()),
            final(self)@ == (OneofDescriptorProtoView { options: Some((*final(r))@), ..old(self)@ }),
    {
        self.options.get_or_insert(OneofOptions::default())
    }

    /// Returns whether the `options` field is set.
    pub fn has_options(&self) -> (r: bool)
        ensures
            r == self@.options is Some,
    {
        self.options.is_some()
    }

    /// Sets the `options` field.
    pub fn set_options(&mut self, value: OneofOptions)
        ensures
            final(self)@ == (OneofDescriptorProtoView { options: Some(value@), ..old(self)@ }),
    {
        self.options = Some(value);
    }

    /// Takes the `options` field out, leaving it unset.
    pub fn take_options(&mut self) -> (r: Option<OneofOptions>)
        ensures
            opt_view(r) == old(self)@.options,
            final(self)@ == (OneofDescriptorProtoView { options: None, ..old(self)@ }),
    {
        self.options.take()
    }

    /// Clears the `options` field, leaving it unset.
    pub fn clear_options(&mut self)
        ensures
            final(self)@ == (OneofDescriptorProtoView { options: None, ..old(self)@ }),
    {
        self.options = None;
    }
}

/// The parts a `OneofDescriptorProto` is written as: its fields that are set, in field number order, then its
/// unknown fields.
#[verifier::opaque]
pub open spec fn oneof_descriptor_proto_parts(v: OneofDescriptorProtoView) -> Seq<(bool, Seq<u8>)>
{
    opt_field_parts::<raw::String>(1u32, v.name) + (oneof_options_opt_parts(2u32, v.options) + (set_parts(v.unknown_fields)))
}

/// The parts the `OneofDescriptorProto` values of a repeated field with field number `num` are written as:
/// for each, its tag, its length and its parts.
pub open spec fn oneof_descriptor_proto_seq_parts(num: u32, ys: Seq<OneofDescriptorProtoView>) -> Seq<(bool, Seq<u8>)>
    decreases ys,
{
    if ys.len() == 0 {
        Seq::empty()
    } else {
        oneof_descriptor_proto_seq_parts(num, ys.subrange(0, ys.len() - 1)) + entry_parts(num, oneof_descriptor_proto_parts(ys[ys.len() - 1]))
    }
}

/// What reading the field with tag value `t` from the front of `rest` into `v` gives: the
/// number of bytes read and the message after, or the error.
pub open spec fn oneof_descriptor_proto_field_read(v: OneofDescriptorProtoView, t: u32, rest: Seq<u8>, depth: nat, limit: nat, skip: bool, eg: Option<Tag>) -> ReadResult<(int, OneofDescriptorProtoView)>
{
    if t == 10u32 {
        match <raw::String as Value>::decoding(rest) { Ok((m, x)) => Ok((m, OneofDescriptorProtoView { name: Some(x), ..v })), Err(e) => Err(e) }
    } else if t == 18u32 {
        match length_delimited_read(rest) { Err(e) => Err(e), Ok((m, b)) => if depth >= limit { Err(ReadError::RecursionLimitExceeded) } else { match oneof_options_merged(match v.options { Some(y) => y, None => oneof_options_default() }, b, depth + 1, limit, skip, eg) { Ok(y) => Ok((m, OneofDescriptorProtoView { options: Some(y), ..v })), Err(e) => Err(e) } } }
    } else {
        match unknown_field_read(v.unknown_fields, t, rest, depth, limit, skip, eg) {
            Ok((m, u)) => Ok((m, OneofDescriptorProtoView { unknown_fields: u, ..v })),
            Err(e) => Err(e),
        }
    }
}

/// What reading all of `s` into `v` as `OneofDescriptorProto` fields gives: the message after, or the error.
/// `depth` and `limit` are the reader's depth and recursion limit, `skip` whether it skips
/// unknown fields, and `eg` the end tag of the group it is in.
pub open spec fn oneof_descriptor_proto_merged(v: OneofDescriptorProtoView, s: Seq<u8>, depth: nat, limit: nat, skip: bool, eg: Option<Tag>) -> ReadResult<OneofDescriptorProtoView>
    decreases s.len(),
{
    if s.len() == 0 {
        Ok(v)
    } else {
        match varint_read(s) {
            Err(e) => Err(e),
            Ok((n, w)) => if n < 1 || n > s.len() {
                Err(eof())
            } else {
                match oneof_descriptor_proto_field_read(v, w as u32, s.skip(n), depth, limit, skip, eg) {
                    Err(e) => Err(e),
                    Ok((m, v2)) => if m < 0 || n + m > s.len() {
                        Err(eof())
                    } else {
                        oneof_descriptor_proto_merged(v2, s.skip(n + m), depth, limit, skip, eg)
                    },
                }
            },
        }
    }
}

/// The views of a run of `OneofDescriptorProto` values, value by value.
pub proof fn lemma_oneof_descriptor_proto_seq_view(s: Seq<OneofDescriptorProto>)
    ensures
        oneof_descriptor_proto_seq_view(s).len() == s.len(),
        forall|i: int| 0 <= i < s.len() ==> #[trigger] oneof_descriptor_proto_seq_view(s)[i] == oneof_descriptor_proto_view(s[i]),
    decreases s.len(),
{
    if s.len() > 0 {
        lemma_oneof_descriptor_proto_seq_view(s.subrange(0, s.len() - 1));
        assert forall|i: int| 0 <= i < s.len() implies #[trigger] oneof_descriptor_proto_seq_view(s)[i] == oneof_descriptor_proto_view(s[i]) by {
            if i < s.len() - 1 {
                assert(s.subrange(0, s.len() - 1)[i] == s[i]);
            }
        }
    }
}

/// The parts of two runs of `OneofDescriptorProto` values are those of the first, then the second.
proof fn lemma_oneof_descriptor_proto_seq_parts_append(num: u32, a: Seq<OneofDescriptorProtoView>, b: Seq<OneofDescriptorProtoView>)
    ensures
        oneof_descriptor_proto_seq_parts(num, a + b) == oneof_descriptor_proto_seq_parts(num, a) + oneof_descriptor_proto_seq_parts(num, b),
    decreases b.len(),
{
    if b.len() == 0 {
        assert(a + b =~= a);
        assert(oneof_descriptor_proto_seq_parts(num, a) + oneof_descriptor_proto_seq_parts(num, b) =~= oneof_descriptor_proto_seq_parts(num, a));
    } else {
        let ab = a + b;
        assert(ab.subrange(0, ab.len() - 1) =~= a + b.subrange(0, b.len() - 1));
        assert(ab[ab.len() - 1] == b[b.len() - 1]);
        lemma_oneof_descriptor_proto_seq_parts_append(num, a, b.subrange(0, b.len() - 1));
        assert(oneof_descriptor_proto_seq_parts(num, a + b) =~= oneof_descriptor_proto_seq_parts(num, a) + oneof_descriptor_proto_seq_parts(num, b));
    }
}

/// The parts of the first `i + 1` values of a run are those of the first `i`, then the entry
/// of value `i`; and those of the whole run are those of the first `i + 1`, then the rest.
proof fn lemma_oneof_descriptor_proto_seq_parts_step(num: u32, ys: Seq<OneofDescriptorProtoView>, i: int)
    requires
        0 <= i < ys.len(),
    ensures
        oneof_descriptor_proto_seq_parts(num, ys.take(i + 1)) == oneof_descriptor_proto_seq_parts(num, ys.take(i)) + entry_parts(num, oneof_descriptor_proto_parts(ys[i])),
        oneof_descriptor_proto_seq_parts(num, ys) == oneof_descriptor_proto_seq_parts(num, ys.take(i + 1)) + oneof_descriptor_proto_seq_parts(num, ys.skip(i + 1)),
{
    assert(ys.take(i + 1).subrange(0, i) =~= ys.take(i));
    assert(ys.take(i + 1)[i] == ys[i]);
    lemma_oneof_descriptor_proto_seq_parts_append(num, ys.take(i + 1), ys.skip(i + 1));
    assert(ys.take(i + 1) + ys.skip(i + 1) =~= ys);
}

/// The parts of `OneofDescriptorProto` values are those of the first value's entry, then those of the others.
proof fn lemma_oneof_descriptor_proto_seq_parts_front(num: u32, ys: Seq<OneofDescriptorProtoView>)
    requires
        ys.len() > 0,
    ensures
        oneof_descriptor_proto_seq_parts(num, ys) == entry_parts(num, oneof_descriptor_proto_parts(ys[0])) + oneof_descriptor_proto_seq_parts(num, ys.drop_first()),
{
    let one = seq![ys[0]];
    lemma_oneof_descriptor_proto_seq_parts_append(num, one, ys.drop_first());
    assert(one + ys.drop_first() =~= ys);
    assert(one.subrange(0, 0) =~= Seq::<OneofDescriptorProtoView>::empty());
    assert(oneof_descriptor_proto_seq_parts(num, Seq::<OneofDescriptorProtoView>::empty()) =~= Seq::<(bool, Seq<u8>)>::empty());
    assert(one[0] == ys[0]);
    assert(oneof_descriptor_proto_seq_parts(num, one) =~= entry_parts(num, oneof_descriptor_proto_parts(ys[0])));
}

/// Adds the size of the `OneofDescriptorProto` values of a repeated field with field number `num`.
fn oneof_descriptor_proto_values_size(vs: &Vec<OneofDescriptorProto>, builder: LengthBuilder, num: FieldNumber) -> (r: Option<LengthBuilder>)
    ensures
        size_added(builder@ as int, parts_encodable(oneof_descriptor_proto_seq_parts(num@, oneof_descriptor_proto_seq_view(vs@))), parts_bytes(oneof_descriptor_proto_seq_parts(num@, oneof_descriptor_proto_seq_view(vs@))).len() as int, r),
{
    let ghost ys = oneof_descriptor_proto_seq_view(vs@);
    proof {
        lemma_oneof_descriptor_proto_seq_view(vs@);
        assert(ys.take(0) =~= Seq::<OneofDescriptorProtoView>::empty());
    }
    let mut b = builder;
    let mut i: usize = 0;
    while i < vs.len()
        invariant
            ys == oneof_descriptor_proto_seq_view(vs@),
            ys.len() == vs@.len(),
            forall|k: int| 0 <= k < vs@.len() ==> #[trigger] ys[k] == oneof_descriptor_proto_view(vs@[k]),
            i <= vs@.len(),
            size_added(builder@ as int, parts_encodable(oneof_descriptor_proto_seq_parts(num@, ys.take(i as int))), parts_bytes(oneof_descriptor_proto_seq_parts(num@, ys.take(i as int))).len() as int, Some(b)),
        decreases vs@.len() - i,
    {
        let ghost y = ys[i as int];
        let ghost done = oneof_descriptor_proto_seq_parts(num@, ys.take(i as int));
        let ghost cur = entry_parts(num@, oneof_descriptor_proto_parts(y));
        let ghost rest = oneof_descriptor_proto_seq_parts(num@, ys.skip(i + 1));
        proof {
            lemma_oneof_descriptor_proto_seq_parts_step(num@, ys, i as int);
        }
        let len = vs[i].calculate_size();
        let r = add_entry_size(b, num, len, Ghost(oneof_descriptor_proto_parts(y)));
        proof {
            lemma_size_chain(builder@ as int, done, cur, Some(b), r);
        }
        b = match r {
            Some(b1) => b1,
            None => {
                proof {
                    lemma_size_prefix(builder@ as int, done + cur, rest);
                }
                return None;
            },
        };
        i = i + 1;
    }
    proof {
        assert(ys.take(i as int) =~= ys);
    }
    Some(b)
}

/// Writes the `OneofDescriptorProto` values of a repeated field with field number `num`: for each, its tag,
/// its length and its fields.
fn write_oneof_descriptor_proto_values(vs: &Vec<OneofDescriptorProto>, output: &mut CodedWriter, num: FieldNumber) -> (r: WriteResult)
    ensures
        (final(output).written(), r) == parts_written(old(output).written(), old(output).capacity(), oneof_descriptor_proto_seq_parts(num@, oneof_descriptor_proto_seq_view(vs@))),
        final(output).capacity() == old(output).capacity(),
        (*final(final(output).target()))@ == (*final(old(output).target()))@,
{
    let ghost ys = oneof_descriptor_proto_seq_view(vs@);
    let ghost start = output.written();
    let ghost cap = output.capacity();
    proof {
        lemma_oneof_descriptor_proto_seq_view(vs@);
        assert(ys.take(0) =~= Seq::<OneofDescriptorProtoView>::empty());
    }
    let mut i: usize = 0;
    while i < vs.len()
        invariant
            ys == oneof_descriptor_proto_seq_view(vs@),
            ys.len() == vs@.len(),
            forall|k: int| 0 <= k < vs@.len() ==> #[trigger] ys[k] == oneof_descriptor_proto_view(vs@[k]),
            i <= vs@.len(),
            start == old(output).written(),
            cap == old(output).capacity(),
            output.capacity() == cap,
            (*final(output.target()))@ == (*final(old(output).target()))@,
            parts_written(start, cap, oneof_descriptor_proto_seq_parts(num@, ys.take(i as int))).0 == output.written(),
            parts_written(start, cap, oneof_descriptor_proto_seq_parts(num@, ys.take(i as int))).1 is Ok,
        decreases vs@.len() - i,
    {
        let ghost y = ys[i as int];
        let ghost done = oneof_descriptor_proto_seq_parts(num@, ys.take(i as int));
        let ghost head = entry_head(num@, oneof_descriptor_proto_parts(y));
        let ghost cur = head + oneof_descriptor_proto_parts(y);
        let ghost rest = oneof_descriptor_proto_seq_parts(num@, ys.skip(i + 1));
        let ghost w0 = output.written();
        proof {
            lemma_oneof_descriptor_proto_seq_parts_step(num@, ys, i as int);
            lemma_parts_written_append(start, cap, done, cur);
            lemma_parts_written_append(start, cap, done + cur, rest);
            lemma_parts_written_append(w0, cap, head, oneof_descriptor_proto_parts(y));
            reveal_with_fuel(parts_written, 3);
            assert(head.drop_first().drop_first() =~= Seq::<(bool, Seq<u8>)>::empty());
        }
        match output.write_tag(Tag::new(num, WireType::LengthDelimited)) {
            Ok(()) => {},
            Err(e) => return Err(e),
        }
        let len = match vs[i].calculate_size() {
            Some(len) => len,
            None => return Err(WriteError::ValueTooLarge),
        };
        match output.write_length(len) {
            Ok(()) => {},
            Err(e) => return Err(e),
        }
        match vs[i].write_to(output) {
            Ok(()) => {},
            Err(e) => return Err(e),
        }
        i = i + 1;
    }
    proof {
        assert(ys.take(i as int) =~= ys);
        lemma_ok_unit(parts_written(start, cap, oneof_descriptor_proto_seq_parts(num@, ys)).1);
    }
    Ok(())
}

/// Reads a `OneofDescriptorProto` from the reader as a length delimited value, merging it into `this`, one
/// level deeper.
fn merge_oneof_descriptor_proto_delimited(this: &mut OneofDescriptorProto, input: &mut CodedReader) -> (r: ReadResult<()>)
    ensures
        match length_delimited_read(old(input).available()) {
            Err(e) => r == Err::<(), ReadError>(e) && same_config(*old(input), *final(input)),
            Ok((m, b)) => if old(input).depth() >= old(input).recursion_limit() {
                r == Err::<(), ReadError>(ReadError::RecursionLimitExceeded) && same_config(*old(input), *final(input))
            } else {
                match oneof_descriptor_proto_merged(old(this)@, b, old(input).depth() + 1, old(input).recursion_limit(), skips(*old(input)), old(input).end_group_view()) {
                    Ok(y) => r is Ok && final(this)@ == y && final(input).position() == old(input).position() + m
                        && same_state(*old(input), *final(input)),
                    Err(e) => r == Err::<(), ReadError>(e) && same_config(*old(input), *final(input)),
                }
            },
        },
{
    let rem0 = input.remaining();
    let ghost s = input.available();
    let ghost start = *input;
    let length = match input.read_length() {
        Ok(l) => l,
        Err(e) => return Err(e),
    };
    let rem1 = input.remaining();
    let ghost n0 = input.position() - start.position();
    proof {
        lemma_varint_read_len(s);
        assert(input.available() =~= s.skip(n0));
    }
    let previous = match input.push_length(length) {
        Ok(p) => p,
        Err(e) => return Err(e),
    };
    let rem2 = input.remaining();
    let ghost b = s.subrange(n0, n0 + length@);
    proof {
        assert(input.available() =~= b);
        assert(length_delimited_read(s) == Ok::<(int, Seq<u8>), ReadError>((n0 + length@, b)));
    }
    let ghost pushed = *input;
    match input.increment_recursion_count() {
        Ok(()) => {},
        Err(e) => {
            input.pop_length(previous);
            return Err(e);
        },
    }
    let r = this.merge_from(input);
    let rem3 = input.remaining();
    input.decrement_recursion_count();
    input.pop_length(previous);
    r
}

impl OneofDescriptorProto {
    /// Gets the unknown fields of the message.
    pub fn unknown_fields(&self) -> (r: &UnknownFieldSet)
        ensures
            r@ == self@.unknown_fields,
    {
        &self.unknown_fields
    }

    /// Gets the unknown fields of the message for changing them.
    pub fn unknown_fields_mut(&mut self) -> (r: &mut UnknownFieldSet)
        ensures
            (*r)@ == old(self)@.unknown_fields,
            final(self)@ == (OneofDescriptorProtoView { unknown_fields: (*final(r))@, ..old(self)@ }),
    {
        &mut self.unknown_fields
    }

    /// Returns whether the message is initialized: whether all its required fields are set.
    pub fn is_initialized(&self) -> (r: bool)
        ensures
            r,
    {
        true
    }

    /// Calculates the size of the message as it is written: `None` if a part cannot be
    /// written or the size does not fit in a length.
    #[verifier::spinoff_prover]
    pub fn calculate_size(&self) -> (r: Option<Length>)
        ensures
            opt_length(r) == parts_size(oneof_descriptor_proto_parts(self@)),
    {
        let ghost v = self@;
        let ghost all = oneof_descriptor_proto_parts(v);
        let b0 = LengthBuilder::new();
        let ghost d0 = Seq::<(bool, Seq<u8>)>::empty();
        proof {
            reveal(oneof_descriptor_proto_parts);
            assert(all =~= d0 + all);
        }
        let ghost p1 = opt_field_parts::<raw::String>(1u32, v.name);
        let ghost rest1 = oneof_options_opt_parts(2u32, v.options) + (set_parts(v.unknown_fields));
        proof {
            assert(self@.name == opt_inner_view::<raw::String>(self.name));
            assert(all == d0 + (p1 + rest1));
            assert(d0 + (p1 + rest1) =~= d0 + p1 + rest1);
        }
        let r1 = add_opt_field::<raw::String>(b0, FieldNumber::new_unchecked(1), &self.name);
        proof {
            lemma_size_chain(0, d0, p1, Some(b0), r1);
            if r1 is None {
                lemma_size_chain(0, d0 + p1, rest1, r1, r1);
            }
        }
        let b1 = match r1 {
            Some(b) => b,
            None => return None,
        };
        let ghost d1 = d0 + p1;
        let ghost p2 = oneof_options_opt_parts(2u32, v.options);
        let ghost rest2 = set_parts(v.unknown_fields);
        proof {
            assert(self@.options == opt_view(self.options));
            assert(all == d1 + (p2 + rest2));
            assert(d1 + (p2 + rest2) =~= d1 + p2 + rest2);
        }
        let r2 = oneof_options_opt_size(&self.options, b1, FieldNumber::new_unchecked(2));
        proof {
            lemma_size_chain(0, d1, p2, Some(b1), r2);
            if r2 is None {
                lemma_size_chain(0, d1 + p2, rest2, r2, r2);
            }
        }
        let b2 = match r2 {
            Some(b) => b,
            None => return None,
        };
        let ghost d2 = d1 + p2;
        let ghost p3 = set_parts(v.unknown_fields);
        let ghost rest3 = Seq::<(bool, Seq<u8>)>::empty();
        proof {
            assert(all == d2 + p3);
            assert(p3 + rest3 =~= p3);
            assert(d2 + (p3 + rest3) =~= d2 + p3 + rest3);
        }
        let r3 = self.unknown_fields.calculate_size(b2);
        proof {
            lemma_size_chain(0, d2, p3, Some(b2), r3);
            if r3 is None {
                lemma_size_chain(0, d2 + p3, rest3, r3, r3);
            }
        }
        let b3 = match r3 {
            Some(b) => b,
            None => return None,
        };
        let ghost d3 = d2 + p3;
        Some(b3.build())
    }

    /// Writes the message to the writer: its fields that are set, in field number order, then
    /// its unknown fields.
    #[verifier::spinoff_prover]
    pub fn write_to(&self, output: &mut CodedWriter) -> (r: WriteResult)
        ensures
            (final(output).written(), r) == parts_written(old(output).written(), old(output).capacity(), oneof_descriptor_proto_parts(self@)),
            final(output).capacity() == old(output).capacity(),
            (*final(final(output).target()))@ == (*final(old(output).target()))@,
    {
        let ghost v = self@;
        let ghost all = oneof_descriptor_proto_parts(v);
        let ghost start = output.written();
        let ghost cap = output.capacity();
        let ghost d0 = Seq::<(bool, Seq<u8>)>::empty();
        proof {
            reveal(oneof_descriptor_proto_parts);
            assert(all =~= d0 + all);
        }
        let ghost p1 = opt_field_parts::<raw::String>(1u32, v.name);
        let ghost rest1 = oneof_options_opt_parts(2u32, v.options) + (set_parts(v.unknown_fields));
        proof {
            assert(self@.name == opt_inner_view::<raw::String>(self.name));
            assert(all == d0 + (p1 + rest1));
            assert(d0 + (p1 + rest1) =~= d0 + p1 + rest1);
            lemma_parts_written_append(start, cap, d0, p1);
            lemma_parts_written_append(start, cap, d0 + p1, rest1);
        }
        match write_opt_field::<raw::String>(output, FieldNumber::new_unchecked(1), &self.name) {
            Ok(()) => {},
            Err(e) => return Err(e),
        }
        let ghost d1 = d0 + p1;
        let ghost p2 = oneof_options_opt_parts(2u32, v.options);
        let ghost rest2 = set_parts(v.unknown_fields);
        proof {
            assert(self@.options == opt_view(self.options));
            assert(all == d1 + (p2 + rest2));
            assert(d1 + (p2 + rest2) =~= d1 + p2 + rest2);
            lemma_parts_written_append(start, cap, d1, p2);
            lemma_parts_written_append(start, cap, d1 + p2, rest2);
        }
        match write_oneof_options_opt(&self.options, output, FieldNumber::new_unchecked(2)) {
            Ok(()) => {},
            Err(e) => return Err(e),
        }
        let ghost d2 = d1 + p2;
        let ghost p3 = set_parts(v.unknown_fields);
        let ghost rest3 = Seq::<(bool, Seq<u8>)>::empty();
        proof {
            assert(all == d2 + p3);
            assert(p3 + rest3 =~= p3);
            assert(d2 + (p3 + rest3) =~= d2 + p3 + rest3);
            lemma_parts_written_append(start, cap, d2, p3);
            lemma_parts_written_append(start, cap, d2 + p3, rest3);
        }
        match self.unknown_fields.write_to(output) {
            Ok(()) => {},
            Err(e) => return Err(e),
        }
        let ghost d3 = d2 + p3;
        proof {
            assert(all =~= d3 + Seq::<(bool, Seq<u8>)>::empty());
            assert(all == d3);
            lemma_ok_unit(parts_written(start, cap, all).1);
        }
        Ok(())
    }

    /// Reads the value of the field whose tag value `t` was just read into the message.
    #[verifier::spinoff_prover]
    fn merge_field(&mut self, t: u32, input: &mut CodedReader) -> (r: ReadResult<()>)
        ensures
            match oneof_descriptor_proto_field_read(old(self)@, t, old(input).available(), old(input).depth(), old(input).recursion_limit(), skips(*old(input)), old(input).end_group_view()) {
                Ok((m, v2)) => r is Ok && final(self)@ == v2 && m >= 0 && final(input).position()
                    == old(input).position() + m && same_state(*old(input), *final(input)),
                Err(e) => r == Err::<(), ReadError>(e) && same_config(*old(input), *final(input)),
            },
    {
        let rem0 = input.remaining();
        let ghost rest = input.available();
        if t == 10u32 {
            proof {
                <raw::String as Value>::lemma_decoding_len(rest);
            }
            input.set_last_tag(Some(Tag::new(FieldNumber::new_unchecked(1), WireType::LengthDelimited)));
            match <raw::String as Value>::merge_from(self.name.get_or_insert(std::string::String::new()), input) {
                Ok(()) => {},
                Err(e) => return Err(e),
            }
        } else if t == 18u32 {
            proof {
                lemma_length_delimited_read_len(rest);
            }
            input.set_last_tag(Some(Tag::new(FieldNumber::new_unchecked(2), WireType::LengthDelimited)));
            match &mut self.options {
                Some(y) => match merge_oneof_options_delimited(y, input) {
                    Ok(()) => {},
                    Err(e) => return Err(e),
                },
                None => {
                    let mut y = OneofOptions::default();
                    match merge_oneof_options_delimited(&mut y, input) {
                        Ok(()) => {},
                        Err(e) => return Err(e),
                    }
                    self.options = Some(y);
                },
            }
        } else {
            let tag = match Tag::try_from(t) {
                Ok(tag) => tag,
                Err(_) => return Err(ReadError::InvalidTag(t)),
            };
            input.set_last_tag(Some(tag));
            match self.unknown_fields.try_add_field_from(input) {
                Ok(TryRead::Consumed) => {},
                Ok(TryRead::Yielded) => match input.skip() {
                    Ok(()) => {},
                    Err(e) => return Err(e),
                },
                Err(e) => return Err(e),
            }
        }
        let rem1 = input.remaining();
        Ok(())
    }

    /// Merges the message with fields read from the reader, up to its limit. Scalar fields
    /// read replace those set, message fields are merged, repeated fields are added to,
    /// and unknown fields are stored or skipped as the reader says. On an error the message
    /// may hold some of the fields read before it.
    #[verifier::spinoff_prover]
    #[verifier::rlimit(50)]
    pub fn merge_from(&mut self, input: &mut CodedReader) -> (r: ReadResult<()>)
        ensures
            merge_outcome(oneof_descriptor_proto_merged(old(self)@, old(input).available(), old(input).depth(), old(input).recursion_limit(), skips(*old(input)), old(input).end_group_view()), final(self)@, *old(input), *final(input), r),
    {
        let rem0 = input.remaining();
        let ghost start = *input;
        let ghost total = oneof_descriptor_proto_merged(self@, input.available(), input.depth(), input.recursion_limit(), skips(*input), input.end_group_view());
        loop
            invariant
                start == *old(input),
                same_state(start, *input),
                0 <= start.position() <= input.position(),
                input.limit_end() <= input.input().len(),
                total == oneof_descriptor_proto_merged(old(self)@, start.available(), start.depth(), start.recursion_limit(), skips(start), start.end_group_view()),
                total == oneof_descriptor_proto_merged(self@, input.available(), start.depth(), start.recursion_limit(), skips(start), start.end_group_view()),
            decreases input.available().len(),
        {
            let ghost s = input.available();
            let ghost before = *input;
            let ghost v = self@;
            let t = match input.read_field() {
                Ok(Some(t)) => t,
                Ok(None) => return Ok(()),
                Err(e) => return Err(e),
            };
            let rem1 = input.remaining();
            let ghost n = input.position() - before.position();
            proof {
                lemma_varint_read_len(s);
                assert(input.available() =~= s.skip(n));
            }
            let ghost mid = *input;
            match self.merge_field(t, input) {
                Ok(()) => {},
                Err(e) => return Err(e),
            }
            let rem2 = input.remaining();
            proof {
                let m = input.position() - mid.position();
                assert(input.available() =~= s.skip(n + m));
            }
        }
    }
}

impl crate::Message for OneofDescriptorProto {
    open spec fn merged(v: OneofDescriptorProtoView, s: Seq<u8>, depth: nat, limit: nat, skip: bool, eg: Option<Tag>) -> ReadResult<OneofDescriptorProtoView> {
        oneof_descriptor_proto_merged(v, s, depth, limit, skip, eg)
    }

    open spec fn parts(v: OneofDescriptorProtoView) -> Seq<(bool, Seq<u8>)> {
        oneof_descriptor_proto_parts(v)
    }

    open spec fn initialized(v: OneofDescriptorProtoView) -> bool {
        true
    }

    open spec fn unknown_fields_of(v: OneofDescriptorProtoView) -> Seq<(u32, Seq<FieldValue>)> {
        v.unknown_fields
    }

    open spec fn with_unknown_fields(v: OneofDescriptorProtoView, u: Seq<(u32, Seq<FieldValue>)>) -> OneofDescriptorProtoView {
        OneofDescriptorProtoView { unknown_fields: u, ..v }
    }

    fn merge_from(&mut self, input: &mut CodedReader) -> (r: ReadResult<()>) {
        OneofDescriptorProto::merge_from(self, input)
    }

    fn calculate_size(&self) -> (r: Option<Length>) {
        OneofDescriptorProto::calculate_size(self)
    }

    fn write_to(&self, output: &mut CodedWriter) -> (r: WriteResult) {
        OneofDescriptorProto::write_to(self, output)
    }

    fn is_initialized(&self) -> (r: bool) {
        OneofDescriptorProto::is_initialized(self)
    }

    fn unknown_fields(&self) -> (r: &UnknownFieldSet) {
        OneofDescriptorProto::unknown_fields(self)
    }

    fn unknown_fields_mut(&mut self) -> (r: &mut UnknownFieldSet) {
        OneofDescriptorProto::unknown_fields_mut(self)
    }
}

impl DebugMessage for OneofDescriptorProto {
    open spec fn spec_full_name() -> Seq<char> {
        "google.protobuf.OneofDescriptorProto"@
    }

    open spec fn spec_name() -> Seq<char> {
        "OneofDescriptorProto"@
    }

    fn full_name() -> (r: &'static str) {
        "google.protobuf.OneofDescriptorProto"
    }

    fn name() -> (r: &'static str) {
        "OneofDescriptorProto"
    }
}

/// Whether `t` is the tag of a field a `OneofDescriptorProto` reads.
pub open spec fn oneof_descriptor_proto_known_tag(t: u32) -> bool {
    t == 10u32 || t == 18u32
}

/// Whether a `OneofDescriptorProto` is read back as it is written, at nesting depth `depth` of a reader with
/// recursion limit `limit`: its messages are read back as written one level deeper, within
/// the limit; and its unknown fields are read back as written, none with the tag of one of
/// its fields.
pub open spec fn oneof_descriptor_proto_roundtrips(v: OneofDescriptorProtoView, depth: nat, limit: nat) -> bool
{
    &&& (v.options matches Some(y) ==> depth < limit && oneof_options_roundtrips(y, depth + 1, limit))
    &&& set_readable(v.unknown_fields)
    &&& forall|k: int| 0 <= k < set_pairs(v.unknown_fields).len() ==> !oneof_descriptor_proto_known_tag(tag_value(
        #[trigger] set_pairs(v.unknown_fields)[k].0,
        field_value_wire_type(set_pairs(v.unknown_fields)[k].1),
    ))
}

/// Reading a `OneofDescriptorProto` field whose tag is read from the front of `s` and whose value is read after
/// it continues with the rest of `s`.
proof fn lemma_oneof_descriptor_proto_step(v: OneofDescriptorProtoView, s: Seq<u8>, k: int, t: u32, m: int, v2: OneofDescriptorProtoView, depth: nat, limit: nat)
    requires
        varint_read(s) == Ok::<(int, u64), ReadError>((k, t as u64)),
        1 <= k <= s.len(),
        oneof_descriptor_proto_field_read(v, t, s.skip(k), depth, limit, false, None) == Ok::<(int, OneofDescriptorProtoView), ReadError>((m, v2)),
        0 <= m,
        k + m <= s.len(),
    ensures
        oneof_descriptor_proto_merged(v, s, depth, limit, false, None) == oneof_descriptor_proto_merged(v2, s.skip(k + m), depth, limit, false, None),
{
    assert((t as u64) as u32 == t);
}

/// Reading the field `name` of a `OneofDescriptorProto` written from `o` sets it to `o`, whatever it held; nothing
/// is written, and nothing changes, for `None`.
proof fn lemma_oneof_descriptor_proto_read_name(d: OneofDescriptorProtoView, o: Option<Seq<char>>, rest: Seq<u8>, depth: nat, limit: nat)
    requires
        parts_encodable(opt_field_parts::<raw::String>(1u32, o)),
    ensures
        oneof_descriptor_proto_merged(d, parts_bytes(opt_field_parts::<raw::String>(1u32, o)) + rest, depth, limit, false, None) == oneof_descriptor_proto_merged(if o is Some { OneofDescriptorProtoView { name: o, ..d } } else { d }, rest, depth, limit, false, None),
{
    match o {
        None => {
            assert(parts_bytes(opt_field_parts::<raw::String>(1u32, o)) + rest =~= rest);
        },
        Some(x) => {
            let p = field_parts::<raw::String>(1u32, x);
            assert(p[1].0);
            let s = parts_bytes(p) + rest;
            lemma_field_bytes_read::<raw::String>(1u32, x, rest);
            lemma_tag_value(1u32, WireType::LengthDelimited);
            let hl = parts_bytes(p).len() as int;
            let k = varint_len(10u64) as int;
            let v2 = OneofDescriptorProtoView { name: Some(x), ..d };
            lemma_oneof_descriptor_proto_step(d, s, k, 10u32, hl - k, v2, depth, limit);
        },
    }
}

/// Reading the field `options` of a `OneofDescriptorProto` written from `o`, where the message does not hold it,
/// sets it to `o`; nothing is written, and nothing changes, for `None`.
#[verifier::rlimit(40)]
proof fn lemma_oneof_descriptor_proto_read_options(d: OneofDescriptorProtoView, o: Option<OneofOptionsView>, rest: Seq<u8>, depth: nat, limit: nat)
    requires
        o is Some ==> d.options is None,
        parts_encodable(oneof_options_opt_parts(2u32, o)),
        o matches Some(y) ==> depth < limit && oneof_options_roundtrips(y, depth + 1, limit),
    ensures
        oneof_descriptor_proto_merged(d, parts_bytes(oneof_options_opt_parts(2u32, o)) + rest, depth, limit, false, None) == oneof_descriptor_proto_merged(if o is Some { OneofDescriptorProtoView { options: o, ..d } } else { d }, rest, depth, limit, false, None),
{
    match o {
        None => {
            assert(parts_bytes(oneof_options_opt_parts(2u32, o)) + rest =~= rest);
        },
        Some(y) => {
            let ep = entry_parts(2u32, oneof_options_parts(y));
            assert(ep[1].0);
            let s = parts_bytes(ep) + rest;
            lemma_entry_bytes_read(2u32, oneof_options_parts(y), rest);
            lemma_tag_value(2u32, WireType::LengthDelimited);
            lemma_parts_encodable_two(entry_head(2u32, oneof_options_parts(y)), oneof_options_parts(y));
            lemma_oneof_options_roundtrip(y, depth + 1, limit);
            let hl = parts_bytes(ep).len() as int;
            let k = varint_len(18u64) as int;
            let v2 = OneofDescriptorProtoView { options: Some(y), ..d };
            lemma_oneof_descriptor_proto_step(d, s, k, 18u32, hl - k, v2, depth, limit);
            assert(s.skip(hl) == rest);
        },
    }
}

/// Reading the field `options` of a `OneofDescriptorProto` merges what is read into the value the message already
/// holds there (or into a default value, where it holds none): the field read from the bytes
/// written from `y` becomes the existing value with the bytes of `y` merged into it, and the
/// rest is read into the message so changed. Past the recursion limit the read is refused.
#[verifier::rlimit(40)]
pub proof fn lemma_oneof_descriptor_proto_merge_options(d: OneofDescriptorProtoView, y: OneofOptionsView, rest: Seq<u8>, depth: nat, limit: nat)
    requires
        parts_encodable(oneof_options_opt_parts(2u32, Some(y))),
    ensures
        oneof_descriptor_proto_merged(d, parts_bytes(oneof_options_opt_parts(2u32, Some(y))) + rest, depth, limit, false, None) == if depth >= limit {
            Err::<OneofDescriptorProtoView, ReadError>(ReadError::RecursionLimitExceeded)
        } else {
            match oneof_options_merged(match d.options { Some(o) => o, None => oneof_options_default() }, parts_bytes(oneof_options_parts(y)), depth + 1, limit, false, None) {
                Ok(z) => oneof_descriptor_proto_merged(OneofDescriptorProtoView { options: Some(z), ..d }, rest, depth, limit, false, None),
                Err(e) => Err(e),
            }
        },
{
    let ep = entry_parts(2u32, oneof_options_parts(y));
    assert(oneof_options_opt_parts(2u32, Some(y)) == ep);
    assert(ep[1].0);
    let s = parts_bytes(ep) + rest;
    lemma_entry_bytes_read(2u32, oneof_options_parts(y), rest);
    lemma_tag_value(2u32, WireType::LengthDelimited);
    let hl = parts_bytes(ep).len() as int;
    let k = varint_len(18u64) as int;
    assert((18u64 as u64) as u32 == 18u32);
    if depth < limit {
        match oneof_options_merged(match d.options { Some(o) => o, None => oneof_options_default() }, parts_bytes(oneof_options_parts(y)), depth + 1, limit, false, None) {
            Ok(z) => {
                let v2 = OneofDescriptorProtoView { options: Some(z), ..d };
                lemma_oneof_descriptor_proto_step(d, s, k, 18u32, hl - k, v2, depth, limit);
                assert(s.skip(hl) == rest);
            },
            Err(e) => {},
        }
    }
}

/// Merging the bytes written for the field `options` of a `OneofDescriptorProto` from `y` into `d` merges `y` into
/// the value `d` holds there (or into a default value, where it holds none), as merging
/// messages does, where `y` is read back as written and the existing value holds none of the
/// message fields `y` holds.
pub proof fn lemma_oneof_descriptor_proto_merge_options_written(d: OneofDescriptorProtoView, y: OneofOptionsView, rest: Seq<u8>, depth: nat, limit: nat)
    requires
        parts_encodable(oneof_options_opt_parts(2u32, Some(y))),
        depth < limit,
        oneof_options_roundtrips(y, depth + 1, limit),
    ensures
        oneof_descriptor_proto_merged(d, parts_bytes(oneof_options_opt_parts(2u32, Some(y))) + rest, depth, limit, false, None) == oneof_descriptor_proto_merged(OneofDescriptorProtoView { options: Some(oneof_options_merge_view(match d.options { Some(o) => o, None => oneof_options_default() }, y)), ..d }, rest, depth, limit, false, None),
{
    lemma_oneof_descriptor_proto_merge_options(d, y, rest, depth, limit);
    lemma_parts_encodable_two(entry_head(2u32, oneof_options_parts(y)), oneof_options_parts(y));
    assert(oneof_options_opt_parts(2u32, Some(y)) == entry_parts(2u32, oneof_options_parts(y)));
    lemma_oneof_options_merge_written(match d.options { Some(o) => o, None => oneof_options_default() }, y, depth + 1, limit);
}

/// Reading unknown field values written one after the other into a `OneofDescriptorProto`, none with the tag
/// of one of its fields, adds them to its unknown fields.
proof fn lemma_oneof_descriptor_proto_read_unknown(v: OneofDescriptorProtoView, ps: Seq<(u32, FieldValue)>, rest: Seq<u8>, depth: nat, limit: nat)
    requires
        forall|k: int| 0 <= k < ps.len() ==> value_readable(#[trigger] ps[k].0, ps[k].1) && !oneof_descriptor_proto_known_tag(
            tag_value(ps[k].0, field_value_wire_type(ps[k].1)),
        ),
    ensures
        oneof_descriptor_proto_merged(v, parts_bytes(pairs_parts(ps)) + rest, depth, limit, false, None) == oneof_descriptor_proto_merged(
            OneofDescriptorProtoView { unknown_fields: push_pairs(v.unknown_fields, ps), ..v },
            rest,
            depth, limit, false, None,
        ),
    decreases ps.len(),
{
    if ps.len() == 0 {
        assert(parts_bytes(pairs_parts(ps)) + rest =~= rest);
    } else {
        let n = ps[0].0;
        let fv = ps[0].1;
        let tail = ps.drop_first();
        assert forall|k: int| 0 <= k < tail.len() implies value_readable(#[trigger] tail[k].0, tail[k].1) && !oneof_descriptor_proto_known_tag(
            tag_value(tail[k].0, field_value_wire_type(tail[k].1)),
        ) by {
            assert(tail[k] == ps[k + 1]);
        }
        assert(value_readable(ps[0].0, ps[0].1));
        lemma_parts_bytes_append(field_value_parts(n, fv), pairs_parts(tail));
        let after = parts_bytes(pairs_parts(tail)) + rest;
        let s = parts_bytes(pairs_parts(ps)) + rest;
        assert(s =~= parts_bytes(field_value_parts(n, fv)) + after);
        lemma_read_value_bytes(n, fv, after);
        let t = tag_value(n, field_value_wire_type(fv));
        let hl = parts_bytes(field_value_parts(n, fv)).len() as int;
        let k = varint_len(t as u64) as int;
        let v2 = OneofDescriptorProtoView { unknown_fields: view_push(v.unknown_fields, n, fv), ..v };
        lemma_oneof_descriptor_proto_step(v, s, k, t, hl - k, v2, depth, limit);
        lemma_oneof_descriptor_proto_read_unknown(v2, tail, rest, depth, limit);
    }
}

/// The writability of the parts of a `OneofDescriptorProto` is that of each field's parts.
proof fn lemma_oneof_descriptor_proto_parts_encodable(v: OneofDescriptorProtoView)
    ensures
        parts_encodable(oneof_descriptor_proto_parts(v)) == (parts_encodable(opt_field_parts::<raw::String>(1u32, v.name)) && parts_encodable(oneof_options_opt_parts(2u32, v.options)) && parts_encodable(set_parts(v.unknown_fields))),
{
    reveal(oneof_descriptor_proto_parts);
    let p0 = opt_field_parts::<raw::String>(1u32, v.name);
    let p1 = oneof_options_opt_parts(2u32, v.options);
    let p2 = set_parts(v.unknown_fields);
    let q2 = p2;
    let q1 = p1 + q2;
    lemma_parts_encodable_two(p1, q2);
    let q0 = p0 + q1;
    lemma_parts_encodable_two(p0, q1);
    assert(oneof_descriptor_proto_parts(v) == q0);
}

/// The bytes of the parts of a `OneofDescriptorProto` are those of each field's parts, one after the other.
proof fn lemma_oneof_descriptor_proto_parts_bytes(v: OneofDescriptorProtoView)
    ensures
        parts_bytes(oneof_descriptor_proto_parts(v)) == parts_bytes(opt_field_parts::<raw::String>(1u32, v.name)) + (parts_bytes(oneof_options_opt_parts(2u32, v.options)) + parts_bytes(set_parts(v.unknown_fields))),
{
    reveal(oneof_descriptor_proto_parts);
    let p0 = opt_field_parts::<raw::String>(1u32, v.name);
    let p1 = oneof_options_opt_parts(2u32, v.options);
    let p2 = set_parts(v.unknown_fields);
    let q2 = p2;
    let q1 = p1 + q2;
    lemma_parts_bytes_append(p1, q2);
    let q0 = p0 + q1;
    lemma_parts_bytes_append(p0, q1);
    assert(oneof_descriptor_proto_parts(v) == q0);
}

/// The message a `OneofDescriptorProto` `d` becomes when `v` is merged into it: each field `v` holds once
/// replaces the one `d` holds, the values of each repeated field of `v` follow those of `d`,
/// and the unknown fields of `v` are added to those of `d`, field number by field number.
pub open spec fn oneof_descriptor_proto_merge_view(d: OneofDescriptorProtoView, v: OneofDescriptorProtoView) -> OneofDescriptorProtoView {
    OneofDescriptorProtoView { name: newer_or(v.name, d.name), options: newer_or(v.options, d.options), unknown_fields: view_merge(d.unknown_fields, v.unknown_fields) }
}

/// Reading the bytes of the parts of a `OneofDescriptorProto` `v`, field by field, into `d` merges `v` into `d`.
#[verifier::spinoff_prover]
#[verifier::rlimit(60)]
proof fn lemma_oneof_descriptor_proto_merge_all(d: OneofDescriptorProtoView, v: OneofDescriptorProtoView, depth: nat, limit: nat)
    requires
        parts_encodable(opt_field_parts::<raw::String>(1u32, v.name)),
        parts_encodable(oneof_options_opt_parts(2u32, v.options)),
        oneof_descriptor_proto_roundtrips(v, depth, limit),
        v.options is Some ==> d.options is None,
        parts_bytes(oneof_descriptor_proto_parts(v)) == parts_bytes(opt_field_parts::<raw::String>(1u32, v.name)) + (parts_bytes(oneof_options_opt_parts(2u32, v.options)) + parts_bytes(set_parts(v.unknown_fields))),
    ensures
        oneof_descriptor_proto_merged(d, parts_bytes(oneof_descriptor_proto_parts(v)), depth, limit, false, None) == Ok::<OneofDescriptorProtoView, ReadError>(oneof_descriptor_proto_merge_view(d, v)),
{
    let p0 = opt_field_parts::<raw::String>(1u32, v.name);
    let p1 = oneof_options_opt_parts(2u32, v.options);
    let p2 = set_parts(v.unknown_fields);
    let b0 = parts_bytes(p0);
    let b1 = parts_bytes(p1);
    let b2 = parts_bytes(p2);
    let r2 = b2;
    let r1 = b1 + r2;
    let r0 = b0 + r1;
    let d0 = d;
    let d1 = OneofDescriptorProtoView { name: newer_or(v.name, d.name), ..d0 };
    assert(oneof_descriptor_proto_merged(d0, r0, depth, limit, false, None) == oneof_descriptor_proto_merged(d1, r1, depth, limit, false, None)) by {
        lemma_oneof_descriptor_proto_read_name(d0, v.name, r1, depth, limit);
        assert((if v.name is Some { OneofDescriptorProtoView { name: v.name, ..d0 } } else { d0 }) == d1);
    }
    let d2 = OneofDescriptorProtoView { options: newer_or(v.options, d.options), ..d1 };
    assert(oneof_descriptor_proto_merged(d1, r1, depth, limit, false, None) == oneof_descriptor_proto_merged(d2, r2, depth, limit, false, None)) by {
        lemma_oneof_descriptor_proto_read_options(d1, v.options, r2, depth, limit);
        assert((if v.options is Some { OneofDescriptorProtoView { options: v.options, ..d1 } } else { d1 }) == d2);
    }
    let ps = set_pairs(v.unknown_fields);
    assert(oneof_descriptor_proto_merged(d2, r2, depth, limit, false, None) == Ok::<OneofDescriptorProtoView, ReadError>(oneof_descriptor_proto_merge_view(d, v))) by {
        lemma_set_pairs(v.unknown_fields, d.unknown_fields);
        lemma_entries_readable(v.unknown_fields);
        assert forall|k: int| 0 <= k < ps.len() implies value_readable(#[trigger] ps[k].0, ps[k].1) && !oneof_descriptor_proto_known_tag(
            tag_value(ps[k].0, field_value_wire_type(ps[k].1)),
        ) by {
            assert(!oneof_descriptor_proto_known_tag(tag_value(set_pairs(v.unknown_fields)[k].0, field_value_wire_type(set_pairs(v.unknown_fields)[k].1))));
        }
        lemma_oneof_descriptor_proto_read_unknown(d2, ps, Seq::empty(), depth, limit);
        assert(b2 + Seq::<u8>::empty() =~= b2);
        let dl = OneofDescriptorProtoView { unknown_fields: push_pairs(d2.unknown_fields, ps), ..d2 };
        assert(dl == oneof_descriptor_proto_merge_view(d, v));
    }
}

/// Reading the bytes of the parts of a `OneofDescriptorProto`, field by field, gives the message back.
proof fn lemma_oneof_descriptor_proto_read_all(v: OneofDescriptorProtoView, depth: nat, limit: nat)
    requires
        parts_encodable(opt_field_parts::<raw::String>(1u32, v.name)),
        parts_encodable(oneof_options_opt_parts(2u32, v.options)),
        oneof_descriptor_proto_roundtrips(v, depth, limit),
        parts_bytes(oneof_descriptor_proto_parts(v)) == parts_bytes(opt_field_parts::<raw::String>(1u32, v.name)) + (parts_bytes(oneof_options_opt_parts(2u32, v.options)) + parts_bytes(set_parts(v.unknown_fields))),
    ensures
        oneof_descriptor_proto_merged(oneof_descriptor_proto_default(), parts_bytes(oneof_descriptor_proto_parts(v)), depth, limit, false, None) == Ok::<OneofDescriptorProtoView, ReadError>(v),
{
    lemma_oneof_descriptor_proto_merge_all(oneof_descriptor_proto_default(), v, depth, limit);
    lemma_entries_readable(v.unknown_fields);
    lemma_merge_into_empty(v.unknown_fields);
    assert(oneof_descriptor_proto_merge_view(oneof_descriptor_proto_default(), v) == v);
}

/// Merging what a `OneofDescriptorProto` `v` writes into a message `d` merges `v` into `d`: each field `v`
/// holds replaces the one `d` holds, repeated values follow those `d` holds, and unknown fields
/// are added to those of `d`, where `d` holds none of the message fields `v` holds (those are
/// merged into each other), at nesting depth `depth` of a reader with recursion limit `limit`
/// that keeps unknown fields, outside any group, where `v` is read back as written.
pub proof fn lemma_oneof_descriptor_proto_merge_written(d: OneofDescriptorProtoView, v: OneofDescriptorProtoView, depth: nat, limit: nat)
    requires
        parts_encodable(oneof_descriptor_proto_parts(v)),
        oneof_descriptor_proto_roundtrips(v, depth, limit),
        v.options is Some ==> d.options is None,
    ensures
        oneof_descriptor_proto_merged(d, parts_bytes(oneof_descriptor_proto_parts(v)), depth, limit, false, None) == Ok::<OneofDescriptorProtoView, ReadError>(oneof_descriptor_proto_merge_view(d, v)),
{
    lemma_oneof_descriptor_proto_parts_encodable(v);
    lemma_oneof_descriptor_proto_parts_bytes(v);
    lemma_oneof_descriptor_proto_merge_all(d, v, depth, limit);
}

/// A `OneofDescriptorProto` is read back as it is written: merging the bytes of its parts into a default
/// message, at nesting depth `depth` of a reader with recursion limit `limit` that keeps
/// unknown fields, outside any group, gives the message back, where it is read back as written.
pub proof fn lemma_oneof_descriptor_proto_roundtrip(v: OneofDescriptorProtoView, depth: nat, limit: nat)
    requires
        parts_encodable(oneof_descriptor_proto_parts(v)),
        oneof_descriptor_proto_roundtrips(v, depth, limit),
    ensures
        oneof_descriptor_proto_merged(oneof_descriptor_proto_default(), parts_bytes(oneof_descriptor_proto_parts(v)), depth, limit, false, None) == Ok::<OneofDescriptorProtoView, ReadError>(v),
{
    lemma_oneof_descriptor_proto_parts_encodable(v);
    lemma_oneof_descriptor_proto_parts_bytes(v);
    lemma_oneof_descriptor_proto_read_all(v, depth, limit);
}

/// The `EnumDescriptorProto` message of `descriptor.proto`.
#[derive(Clone, Debug)]
pub struct EnumDescriptorProto {
    name: Option<String>,
    value: RepeatedField<EnumValueDescriptorProto>,
    options: Option<EnumOptions>,
    reserved_range: RepeatedField<EnumReservedRange>,
    reserved_name: RepeatedField<String>,
    unknown_fields: UnknownFieldSet,
}

/// The view of a `EnumDescriptorProto`: its fields, and its unknown fields.
pub struct EnumDescriptorProtoView {
    /// The `name` field.
    pub name: Option<Seq<char>>,
    /// The `value` field.
    pub value: Seq<EnumValueDescriptorProtoView>,
    /// The `options` field.
    pub options: Option<EnumOptionsView>,
    /// The `reserved_range` field.
    pub reserved_range: Seq<EnumReservedRangeView>,
    /// The `reserved_name` field.
    pub reserved_name: Seq<Seq<char>>,
    /// The unknown fields.
    pub unknown_fields: Seq<(u32, Seq<FieldValue>)>,
}

/// The view of a `EnumDescriptorProto` value.
pub closed spec fn enum_descriptor_proto_view(m: EnumDescriptorProto) -> EnumDescriptorProtoView
{
    EnumDescriptorProtoView {
        name: opt_view(m.name),
        value: enum_value_descriptor_proto_seq_view(m.value@),
        options: match m.options { Some(x) => Some(enum_options_view(x)), None => None },
        reserved_range: enum_reserved_range_seq_view(m.reserved_range@),
        reserved_name: views(m.reserved_name@),
        unknown_fields: m.unknown_fields@,
    }
}

/// The views of a run of `EnumDescriptorProto` values.
pub closed spec fn enum_descriptor_proto_seq_view(s: Seq<EnumDescriptorProto>) -> Seq<EnumDescriptorProtoView>
    decreases s,
{
    if s.len() == 0 {
        Seq::empty()
    } else {
        enum_descriptor_proto_seq_view(s.subrange(0, s.len() - 1)).push(enum_descriptor_proto_view(s[s.len() - 1]))
    }
}

/// The view of a `EnumDescriptorProto` with no field set.
pub open spec fn enum_descriptor_proto_default() -> EnumDescriptorProtoView {
    EnumDescriptorProtoView {
        name: None,
        value: Seq::empty(),
        options: None,
        reserved_range: Seq::empty(),
        reserved_name: Seq::empty(),
        unknown_fields: Seq::empty(),
    }
}

impl View for EnumDescriptorProto {
    type V = EnumDescriptorProtoView;

    open spec fn view(&self) -> EnumDescriptorProtoView {
        enum_descriptor_proto_view(*self)
    }
}

impl Default for EnumDescriptorProto {
    /// A message with no field set.
    fn default() -> (r: EnumDescriptorProto)
        ensures
            r@ == enum_descriptor_proto_default(),
    {
        let r = EnumDescriptorProto {
            name: None,
            value: Vec::new(),
            options: None,
            reserved_range: Vec::new(),
            reserved_name: Vec::new(),
            unknown_fields: UnknownFieldSet::new(),
        };
        proof {
            assert(enum_value_descriptor_proto_seq_view(r.value@) =~= Seq::empty());
            assert(enum_reserved_range_seq_view(r.reserved_range@) =~= Seq::empty());
            assert(views(r.reserved_name@) =~= Seq::empty());
            assert(r@ =~= enum_descriptor_proto_default());
        }
        r
    }
}

impl EnumDescriptorProto {
    /// Gets the `name` field, or its default, the empty string.
    pub fn name(&self) -> (r: &str)
        ensures
            r@ == text_or_empty(self@.name),
    {
        proof {
            reveal_strlit("");
        }
        match &self.name {
            Some(s) => s.as_str(),
            None => "",
        }
    }

    /// Gets the `name` field if it is set.
    pub fn name_option(&self) -> (r: Option<&String>)
        ensures
            opt_ref_view(r) == self@.name,
    {
        self.name.as_ref()
    }

    /// Gets the `name` field for changing it, setting it to its type's default first if it
    /// is not set.
    pub fn name_mut(&mut self) -> (r: &mut String)
        ensures
            (*r)@ == old(self)@.name.unwrap_or(Seq::<char>::empty()),
            final(self)@ == (EnumDescriptorProtoView { name: Some((*final(r))@), ..old(self)@ }),
    {
        self.name.get_or_insert(String::new())
    }

    /// Returns whether the `name` field is set.
    pub fn has_name(&self) -> (r: bool)
        ensures
            r == self@.name is Some,
    {
        self.name.is_some()
    }

    /// Sets the `name` field.
    pub fn set_name(&mut self, value: String)
        ensures
            final(self)@ == (EnumDescriptorProtoView { name: Some(value@), ..old(self)@ }),
    {
        self.name = Some(value);
    }

    /// Takes the `name` field out, leaving it unset.
    pub fn take_name(&mut self) -> (r: Option<String>)
        ensures
            opt_view(r) == old(self)@.name,
            final(self)@ == (EnumDescriptorProtoView { name: None, ..old(self)@ }),
    {
        self.name.take()
    }

    /// Clears the `name` field, leaving it unset.
    pub fn clear_name(&mut self)
        ensures
            final(self)@ == (EnumDescriptorProtoView { name: None, ..old(self)@ }),
    {
        self.name = None;
    }

    /// Gets the values of the `value` field.
    pub fn value(&self) -> (r: &RepeatedField<EnumValueDescriptorProto>)
        ensures
            enum_value_descriptor_proto_seq_view(r@) == self@.value,
    {
        &self.value
    }

    /// Gets the values of the `value` field for changing them.
    pub fn value_mut(&mut self) -> (r: &mut RepeatedField<EnumValueDescriptorProto>)
        ensures
            enum_value_descriptor_proto_seq_view((*r)@) == old(self)@.value,
            final(self)@ == (EnumDescriptorProtoView { value: enum_value_descriptor_proto_seq_view((*final(r))@), ..old(self)@ }),
    {
        &mut self.value
    }

    /// Gets the `options` field if it is set.
    pub fn options_option(&self) -> (r: Option<&EnumOptions>)
        ensures
            opt_ref_view(r) == self@.options,
    {
        self.options.as_ref()
    }

    /// Gets the `options` field for changing it, setting it to its type's default first if it
    /// is not set.
    pub fn options_mut(&mut self) -> (r: &mut EnumOptions)
        ensures
            (*r)@ == old(self)@.options.unwrap_or(enum_options_default()),
            final(self)@ == (EnumDescriptorProtoView { options: Some((*final(r))@), ..old(self)@ }),
    {
        self.options.get_or_insert(EnumOptions::default())
    }

    /// Returns whether the `options` field is set.
    pub fn has_options(&self) -> (r: bool)
        ensures
            r == self@.options is Some,
    {
        self.options.is_some()
    }

    /// Sets the `options` field.
    pub fn set_options(&mut self, value: EnumOptions)
        ensures
            final(self)@ == (EnumDescriptorProtoView { options: Some(value@), ..old(self)@ }),
    {
        self.options = Some(value);
    }

    /// Takes the `options` field out, leaving it unset.
    pub fn take_options(&mut self) -> (r: Option<EnumOptions>)
        ensures
            opt_view(r) == old(self)@.options,
            final(self)@ == (EnumDescriptorProtoView { options: None, ..old(self)@ }),
    {
        self.options.take()
    }

    /// Clears the `options` field, leaving it unset.
    pub fn clear_options(&mut self)
        ensures
            final(self)@ == (EnumDescriptorProtoView { options: None, ..old(self)@ }),
    {
        self.options = None;
    }

    /// Gets the values of the `reserved_range` field.
    pub fn reserved_range(&self) -> (r: &RepeatedField<EnumReservedRange>)
        ensures
            enum_reserved_range_seq_view(r@) == self@.reserved_range,
    {
        &self.reserved_range
    }

    /// Gets the values of the `reserved_range` field for changing them.
    pub fn reserved_range_mut(&mut self) -> (r: &mut RepeatedField<EnumReservedRange>)
        ensures
            enum_reserved_range_seq_view((*r)@) == old(self)@.reserved_range,
            final(self)@ == (EnumDescriptorProtoView { reserved_range: enum_reserved_range_seq_view((*final(r))@), ..old(self)@ }),
    {
        &mut self.reserved_range
    }

    /// Gets the values of the `reserved_name` field.
    pub fn reserved_name(&self) -> (r: &RepeatedField<String>)
        ensures
            views(r@) == self@.reserved_name,
    {
        &self.reserved_name
    }

    /// Gets the values of the `reserved_name` field for changing them.
    pub fn reserved_name_mut(&mut self) -> (r: &mut RepeatedField<String>)
        ensures
            views((*r)@) == old(self)@.reserved_name,
            final(self)@ == (EnumDescriptorProtoView { reserved_name: views((*final(r))@), ..old(self)@ }),
    {
        &mut self.reserved_name
    }
}

/// The parts a `EnumDescriptorProto` is written as: its fields that are set, in field number order, then its
/// unknown fields.
#[verifier::opaque]
pub open spec fn enum_descriptor_proto_parts(v: EnumDescriptorProtoView) -> Seq<(bool, Seq<u8>)>
{
    opt_field_parts::<raw::String>(1u32, v.name) + (enum_value_descriptor_proto_seq_parts(2u32, v.value) + (enum_options_opt_parts(3u32, v.options) + (enum_reserved_range_seq_parts(4u32, v.reserved_range) + (unpacked_parts::<raw::String>(5u32, v.reserved_name) + (set_parts(v.unknown_fields))))))
}

/// The parts the `EnumDescriptorProto` values of a repeated field with field number `num` are written as:
/// for each, its tag, its length and its parts.
pub open spec fn enum_descriptor_proto_seq_parts(num: u32, ys: Seq<EnumDescriptorProtoView>) -> Seq<(bool, Seq<u8>)>
    decreases ys,
{
    if ys.len() == 0 {
        Seq::empty()
    } else {
        enum_descriptor_proto_seq_parts(num, ys.subrange(0, ys.len() - 1)) + entry_parts(num, enum_descriptor_proto_parts(ys[ys.len() - 1]))
    }
}

/// What reading the field with tag value `t` from the front of `rest` into `v` gives: the
/// number of bytes read and the message after, or the error.
pub open spec fn enum_descriptor_proto_field_read(v: EnumDescriptorProtoView, t: u32, rest: Seq<u8>, depth: nat, limit: nat, skip: bool, eg: Option<Tag>) -> ReadResult<(int, EnumDescriptorProtoView)>
{
    if t == 10u32 {
        match <raw::String as Value>::decoding(rest) { Ok((m, x)) => Ok((m, EnumDescriptorProtoView { name: Some(x), ..v })), Err(e) => Err(e) }
    } else if t == 18u32 {
        match length_delimited_read(rest) { Err(e) => Err(e), Ok((m, b)) => if depth >= limit { Err(ReadError::RecursionLimitExceeded) } else { match enum_value_descriptor_proto_merged(enum_value_descriptor_proto_default(), b, depth + 1, limit, skip, eg) { Ok(y) => Ok((m, EnumDescriptorProtoView { value: v.value.push(y), ..v })), Err(e) => Err(e) } } }
    } else if t == 26u32 {
        match length_delimited_read(rest) { Err(e) => Err(e), Ok((m, b)) => if depth >= limit { Err(ReadError::RecursionLimitExceeded) } else { match enum_options_merged(match v.options { Some(y) => y, None => enum_options_default() }, b, depth + 1, limit, skip, eg) { Ok(y) => Ok((m, EnumDescriptorProtoView { options: Some(y), ..v })), Err(e) => Err(e) } } }
    } else if t == 34u32 {
        match length_delimited_read(rest) { Err(e) => Err(e), Ok((m, b)) => if depth >= limit { Err(ReadError::RecursionLimitExceeded) } else { match enum_reserved_range_merged(enum_reserved_range_default(), b, depth + 1, limit, skip, eg) { Ok(y) => Ok((m, EnumDescriptorProtoView { reserved_range: v.reserved_range.push(y), ..v })), Err(e) => Err(e) } } }
    } else if t == 42u32 {
        match <RepeatedField<std::string::String> as RepeatedValue<raw::String>>::entries_read(rest) { Ok((m, es)) => Ok((m, EnumDescriptorProtoView { reserved_name: v.reserved_name + es, ..v })), Err(e) => Err(e) }
    } else {
        match unknown_field_read(v.unknown_fields, t, rest, depth, limit, skip, eg) {
            Ok((m, u)) => Ok((m, EnumDescriptorProtoView { unknown_fields: u, ..v })),
            Err(e) => Err(e),
        }
    }
}

/// What reading all of `s` into `v` as `EnumDescriptorProto` fields gives: the message after, or the error.
/// `depth` and `limit` are the reader's depth and recursion limit, `skip` whether it skips
/// unknown fields, and `eg` the end tag of the group it is in.
pub open spec fn enum_descriptor_proto_merged(v: EnumDescriptorProtoView, s: Seq<u8>, depth: nat, limit: nat, skip: bool, eg: Option<Tag>) -> ReadResult<EnumDescriptorProtoView>
    decreases s.len(),
{
    if s.len() == 0 {
        Ok(v)
    } else {
        match varint_read(s) {
            Err(e) => Err(e),
            Ok((n, w)) => if n < 1 || n > s.len() {
                Err(eof())
            } else {
                match enum_descriptor_proto_field_read(v, w as u32, s.skip(n), depth, limit, skip, eg) {
                    Err(e) => Err(e),
                    Ok((m, v2)) => if m < 0 || n + m > s.len() {
                        Err(eof())
                    } else {
                        enum_descriptor_proto_merged(v2, s.skip(n + m), depth, limit, skip, eg)
                    },
                }
            },
        }
    }
}

/// The views of a run of `EnumDescriptorProto` values, value by value.
pub proof fn lemma_enum_descriptor_proto_seq_view(s: Seq<EnumDescriptorProto>)
    ensures
        enum_descriptor_proto_seq_view(s).len() == s.len(),
        forall|i: int| 0 <= i < s.len() ==> #[trigger] enum_descriptor_proto_seq_view(s)[i] == enum_descriptor_proto_view(s[i]),
    decreases s.len(),
{
    if s.len() > 0 {
        lemma_enum_descriptor_proto_seq_view(s.subrange(0, s.len() - 1));
        assert forall|i: int| 0 <= i < s.len() implies #[trigger] enum_descriptor_proto_seq_view(s)[i] == enum_descriptor_proto_view(s[i]) by {
            if i < s.len() - 1 {
                assert(s.subrange(0, s.len() - 1)[i] == s[i]);
            }
        }
    }
}

/// The parts of two runs of `EnumDescriptorProto` values are those of the first, then the second.
proof fn lemma_enum_descriptor_proto_seq_parts_append(num: u32, a: Seq<EnumDescriptorProtoView>, b: Seq<EnumDescriptorProtoView>)
    ensures
        enum_descriptor_proto_seq_parts(num, a + b) == enum_descriptor_proto_seq_parts(num, a) + enum_descriptor_proto_seq_parts(num, b),
    decreases b.len(),
{
    if b.len() == 0 {
        assert(a + b =~= a);
        assert(enum_descriptor_proto_seq_parts(num, a) + enum_descriptor_proto_seq_parts(num, b) =~= enum_descriptor_proto_seq_parts(num, a));
    } else {
        let ab = a + b;
        assert(ab.subrange(0, ab.len() - 1) =~= a + b.subrange(0, b.len() - 1));
        assert(ab[ab.len() - 1] == b[b.len() - 1]);
        lemma_enum_descriptor_proto_seq_parts_append(num, a, b.subrange(0, b.len() - 1));
        assert(enum_descriptor_proto_seq_parts(num, a + b) =~= enum_descriptor_proto_seq_parts(num, a) + enum_descriptor_proto_seq_parts(num, b));
    }
}

/// The parts of the first `i + 1` values of a run are those of the first `i`, then the entry
/// of value `i`; and those of the whole run are those of the first `i + 1`, then the rest.
proof fn lemma_enum_descriptor_proto_seq_parts_step(num: u32, ys: Seq<EnumDescriptorProtoView>, i: int)
    requires
        0 <= i < ys.len(),
    ensures
        enum_descriptor_proto_seq_parts(num, ys.take(i + 1)) == enum_descriptor_proto_seq_parts(num, ys.take(i)) + entry_parts(num, enum_descriptor_proto_parts(ys[i])),
        enum_descriptor_proto_seq_parts(num, ys) == enum_descriptor_proto_seq_parts(num, ys.take(i + 1)) + enum_descriptor_proto_seq_parts(num, ys.skip(i + 1)),
{
    assert(ys.take(i + 1).subrange(0, i) =~= ys.take(i));
    assert(ys.take(i + 1)[i] == ys[i]);
    lemma_enum_descriptor_proto_seq_parts_append(num, ys.take(i + 1), ys.skip(i + 1));
    assert(ys.take(i + 1) + ys.skip(i + 1) =~= ys);
}

/// The parts of `EnumDescriptorProto` values are those of the first value's entry, then those of the others.
proof fn lemma_enum_descriptor_proto_seq_parts_front(num: u32, ys: Seq<EnumDescriptorProtoView>)
    requires
        ys.len() > 0,
    ensures
        enum_descriptor_proto_seq_parts(num, ys) == entry_parts(num, enum_descriptor_proto_parts(ys[0])) + enum_descriptor_proto_seq_parts(num, ys.drop_first()),
{
    let one = seq![ys[0]];
    lemma_enum_descriptor_proto_seq_parts_append(num, one, ys.drop_first());
    assert(one + ys.drop_first() =~= ys);
    assert(one.subrange(0, 0) =~= Seq::<EnumDescriptorProtoView>::empty());
    assert(enum_descriptor_proto_seq_parts(num, Seq::<EnumDescriptorProtoView>::empty()) =~= Seq::<(bool, Seq<u8>)>::empty());
    assert(one[0] == ys[0]);
    assert(enum_descriptor_proto_seq_parts(num, one) =~= entry_parts(num, enum_descriptor_proto_parts(ys[0])));
}

/// Adds the size of the `EnumDescriptorProto` values of a repeated field with field number `num`.
fn enum_descriptor_proto_values_size(vs: &Vec<EnumDescriptorProto>, builder: LengthBuilder, num: FieldNumber) -> (r: Option<LengthBuilder>)
    ensures
        size_added(builder@ as int, parts_encodable(enum_descriptor_proto_seq_parts(num@, enum_descriptor_proto_seq_view(vs@))), parts_bytes(enum_descriptor_proto_seq_parts(num@, enum_descriptor_proto_seq_view(vs@))).len() as int, r),
{
    let ghost ys = enum_descriptor_proto_seq_view(vs@);
    proof {
        lemma_enum_descriptor_proto_seq_view(vs@);
        assert(ys.take(0) =~= Seq::<EnumDescriptorProtoView>::empty());
    }
    let mut b = builder;
    let mut i: usize = 0;
    while i < vs.len()
        invariant
            ys == enum_descriptor_proto_seq_view(vs@),
            ys.len() == vs@.len(),
            forall|k: int| 0 <= k < vs@.len() ==> #[trigger] ys[k] == enum_descriptor_proto_view(vs@[k]),
            i <= vs@.len(),
            size_added(builder@ as int, parts_encodable(enum_descriptor_proto_seq_parts(num@, ys.take(i as int))), parts_bytes(enum_descriptor_proto_seq_parts(num@, ys.take(i as int))).len() as int, Some(b)),
        decreases vs@.len() - i,
    {
        let ghost y = ys[i as int];
        let ghost done = enum_descriptor_proto_seq_parts(num@, ys.take(i as int));
        let ghost cur = entry_parts(num@, enum_descriptor_proto_parts(y));
        let ghost rest = enum_descriptor_proto_seq_parts(num@, ys.skip(i + 1));
        proof {
            lemma_enum_descriptor_proto_seq_parts_step(num@, ys, i as int);
        }
        let len = vs[i].calculate_size();
        let r = add_entry_size(b, num, len, Ghost(enum_descriptor_proto_parts(y)));
        proof {
            lemma_size_chain(builder@ as int, done, cur, Some(b), r);
        }
        b = match r {
            Some(b1) => b1,
            None => {
                proof {
                    lemma_size_prefix(builder@ as int, done + cur, rest);
                }
                return None;
            },
        };
        i = i + 1;
    }
    proof {
        assert(ys.take(i as int) =~= ys);
    }
    Some(b)
}

/// Writes the `EnumDescriptorProto` values of a repeated field with field number `num`: for each, its tag,
/// its length and its fields.
fn write_enum_descriptor_proto_values(vs: &Vec<EnumDescriptorProto>, output: &mut CodedWriter, num: FieldNumber) -> (r: WriteResult)
    ensures
        (final(output).written(), r) == parts_written(old(output).written(), old(output).capacity(), enum_descriptor_proto_seq_parts(num@, enum_descriptor_proto_seq_view(vs@))),
        final(output).capacity() == old(output).capacity(),
        (*final(final(output).target()))@ == (*final(old(output).target()))@,
{
    let ghost ys = enum_descriptor_proto_seq_view(vs@);
    let ghost start = output.written();
    let ghost cap = output.capacity();
    proof {
        lemma_enum_descriptor_proto_seq_view(vs@);
        assert(ys.take(0) =~= Seq::<EnumDescriptorProtoView>::empty());
    }
    let mut i: usize = 0;
    while i < vs.len()
        invariant
            ys == enum_descriptor_proto_seq_view(vs@),
            ys.len() == vs@.len(),
            forall|k: int| 0 <= k < vs@.len() ==> #[trigger] ys[k] == enum_descriptor_proto_view(vs@[k]),
            i <= vs@.len(),
            start == old(output).written(),
            cap == old(output).capacity(),
            output.capacity() == cap,
            (*final(output.target()))@ == (*final(old(output).target()))@,
            parts_written(start, cap, enum_descriptor_proto_seq_parts(num@, ys.take(i as int))).0 == output.written(),
            parts_written(start, cap, enum_descriptor_proto_seq_parts(num@, ys.take(i as int))).1 is Ok,
        decreases vs@.len() - i,
    {
        let ghost y = ys[i as int];
        let ghost done = enum_descriptor_proto_seq_parts(num@, ys.take(i as int));
        let ghost head = entry_head(num@, enum_descriptor_proto_parts(y));
        let ghost cur = head + enum_descriptor_proto_parts(y);
        let ghost rest = enum_descriptor_proto_seq_parts(num@, ys.skip(i + 1));
        let ghost w0 = output.written();
        proof {
            lemma_enum_descriptor_proto_seq_parts_step(num@, ys, i as int);
            lemma_parts_written_append(start, cap, done, cur);
            lemma_parts_written_append(start, cap, done + cur, rest);
            lemma_parts_written_append(w0, cap, head, enum_descriptor_proto_parts(y));
            reveal_with_fuel(parts_written, 3);
            assert(head.drop_first().drop_first() =~= Seq::<(bool, Seq<u8>)>::empty());
        }
        match output.write_tag(Tag::new(num, WireType::LengthDelimited)) {
            Ok(()) => {},
            Err(e) => return Err(e),
        }
        let len = match vs[i].calculate_size() {
            Some(len) => len,
            None => return Err(WriteError::ValueTooLarge),
        };
        match output.write_length(len) {
            Ok(()) => {},
            Err(e) => return Err(e),
        }
        match vs[i].write_to(output) {
            Ok(()) => {},
            Err(e) => return Err(e),
        }
        i = i + 1;
    }
    proof {
        assert(ys.take(i as int) =~= ys);
        lemma_ok_unit(parts_written(start, cap, enum_descriptor_proto_seq_parts(num@, ys)).1);
    }
    Ok(())
}

/// Reads a `EnumDescriptorProto` from the reader as a length delimited value, merging it into `this`, one
/// level deeper.
fn merge_enum_descriptor_proto_delimited(this: &mut EnumDescriptorProto, input: &mut CodedReader) -> (r: ReadResult<()>)
    ensures
        match length_delimited_read(old(input).available()) {
            Err(e) => r == Err::<(), ReadError>(e) && same_config(*old(input), *final(input)),
            Ok((m, b)) => if old(input).depth() >= old(input).recursion_limit() {
                r == Err::<(), ReadError>(ReadError::RecursionLimitExceeded) && same_config(*old(input), *final(input))
            } else {
                match enum_descriptor_proto_merged(old(this)@, b, old(input).depth() + 1, old(input).recursion_limit(), skips(*old(input)), old(input).end_group_view()) {
                    Ok(y) => r is Ok && final(this)@ == y && final(input).position() == old(input).position() + m
                        && same_state(*old(input), *final(input)),
                    Err(e) => r == Err::<(), ReadError>(e) && same_config(*old(input), *final(input)),
                }
            },
        },
{
    let rem0 = input.remaining();
    let ghost s = input.available();
    let ghost start = *input;
    let length = match input.read_length() {
        Ok(l) => l,
        Err(e) => return Err(e),
    };
    let rem1 = input.remaining();
    let ghost n0 = input.position() - start.position();
    proof {
        lemma_varint_read_len(s);
        assert(input.available() =~= s.skip(n0));
    }
    let previous = match input.push_length(length) {
        Ok(p) => p,
        Err(e) => return Err(e),
    };
    let rem2 = input.remaining();
    let ghost b = s.subrange(n0, n0 + length@);
    proof {
        assert(input.available() =~= b);
        assert(length_delimited_read(s) == Ok::<(int, Seq<u8>), ReadError>((n0 + length@, b)));
    }
    let ghost pushed = *input;
    match input.increment_recursion_count() {
        Ok(()) => {},
        Err(e) => {
            input.pop_length(previous);
            return Err(e);
        },
    }
    let r = this.merge_from(input);
    let rem3 = input.remaining();
    input.decrement_recursion_count();
    input.pop_length(previous);
    r
}

impl EnumDescriptorProto {
    /// Gets the unknown fields of the message.
    pub fn unknown_fields(&self) -> (r: &UnknownFieldSet)
        ensures
            r@ == self@.unknown_fields,
    {
        &self.unknown_fields
    }

    /// Gets the unknown fields of the message for changing them.
    pub fn unknown_fields_mut(&mut self) -> (r: &mut UnknownFieldSet)
        ensures
            (*r)@ == old(self)@.unknown_fields,
            final(self)@ == (EnumDescriptorProtoView { unknown_fields: (*final(r))@, ..old(self)@ }),
    {
        &mut self.unknown_fields
    }

    /// Returns whether the message is initialized: whether all its required fields are set.
    pub fn is_initialized(&self) -> (r: bool)
        ensures
            r,
    {
        if !crate::is_initialized(&self.value) {
            return false;
        }
        if !crate::is_initialized(&self.reserved_range) {
            return false;
        }
        if !crate::is_initialized(&self.reserved_name) {
            return false;
        }
        true
    }

    /// Calculates the size of the message as it is written: `None` if a part cannot be
    /// written or the size does not fit in a length.
    #[verifier::spinoff_prover]
    pub fn calculate_size(&self) -> (r: Option<Length>)
        ensures
            opt_length(r) == parts_size(enum_descriptor_proto_parts(self@)),
    {
        let ghost v = self@;
        let ghost all = enum_descriptor_proto_parts(v);
        let b0 = LengthBuilder::new();
        let ghost d0 = Seq::<(bool, Seq<u8>)>::empty();
        proof {
            reveal(enum_descriptor_proto_parts);
            assert(all =~= d0 + all);
        }
        let ghost p1 = opt_field_parts::<raw::String>(1u32, v.name);
        let ghost rest1 = enum_value_descriptor_proto_seq_parts(2u32, v.value) + (enum_options_opt_parts(3u32, v.options) + (enum_reserved_range_seq_parts(4u32, v.reserved_range) + (unpacked_parts::<raw::String>(5u32, v.reserved_name) + (set_parts(v.unknown_fields)))));
        proof {
            assert(self@.name == opt_inner_view::<raw::String>(self.name));
            assert(all == d0 + (p1 + rest1));
            assert(d0 + (p1 + rest1) =~= d0 + p1 + rest1);
        }
        let r1 = add_opt_field::<raw::String>(b0, FieldNumber::new_unchecked(1), &self.name);
        proof {
            lemma_size_chain(0, d0, p1, Some(b0), r1);
            if r1 is None {
                lemma_size_chain(0, d0 + p1, rest1, r1, r1);
            }
        }
        let b1 = match r1 {
            Some(b) => b,
            None => return None,
        };
        let ghost d1 = d0 + p1;
        let ghost p2 = enum_value_descriptor_proto_seq_parts(2u32, v.value);
        let ghost rest2 = enum_options_opt_parts(3u32, v.options) + (enum_reserved_range_seq_parts(4u32, v.reserved_range) + (unpacked_parts::<raw::String>(5u32, v.reserved_name) + (set_parts(v.unknown_fields))));
        proof {
            assert(all == d1 + (p2 + rest2));
            assert(d1 + (p2 + rest2) =~= d1 + p2 + rest2);
        }
        let r2 = enum_value_descriptor_proto_values_size(&self.value, b1, FieldNumber::new_unchecked(2));
        proof {
            lemma_size_chain(0, d1, p2, Some(b1), r2);
            if r2 is None {
                lemma_size_chain(0, d1 + p2, rest2, r2, r2);
            }
        }
        let b2 = match r2 {
            Some(b) => b,
            None => return None,
        };
        let ghost d2 = d1 + p2;
        let ghost p3 = enum_options_opt_parts(3u32, v.options);
        let ghost rest3 = enum_reserved_range_seq_parts(4u32, v.reserved_range) + (unpacked_parts::<raw::String>(5u32, v.reserved_name) + (set_parts(v.unknown_fields)));
        proof {
            assert(self@.options == opt_view(self.options));
            assert(all == d2 + (p3 + rest3));
            assert(d2 + (p3 + rest3) =~= d2 + p3 + rest3);
        }
        let r3 = enum_options_opt_size(&self.options, b2, FieldNumber::new_unchecked(3));
        proof {
            lemma_size_chain(0, d2, p3, Some(b2), r3);
            if r3 is None {
                lemma_size_chain(0, d2 + p3, rest3, r3, r3);
            }
        }
        let b3 = match r3 {
            Some(b) => b,
            None => return None,
        };
        let ghost d3 = d2 + p3;
        let ghost p4 = enum_reserved_range_seq_parts(4u32, v.reserved_range);
        let ghost rest4 = unpacked_parts::<raw::String>(5u32, v.reserved_name) + (set_parts(v.unknown_fields));
        proof {
            assert(all == d3 + (p4 + rest4));
            assert(d3 + (p4 + rest4) =~= d3 + p4 + rest4);
        }
        let r4 = enum_reserved_range_values_size(&self.reserved_range, b3, FieldNumber::new_unchecked(4));
        proof {
            lemma_size_chain(0, d3, p4, Some(b3), r4);
            if r4 is None {
                lemma_size_chain(0, d3 + p4, rest4, r4, r4);
            }
        }
        let b4 = match r4 {
            Some(b) => b,
            None => return None,
        };
        let ghost d4 = d3 + p4;
        let ghost p5 = unpacked_parts::<raw::String>(5u32, v.reserved_name);
        let ghost rest5 = set_parts(v.unknown_fields);
        proof {
            <RepeatedField<std::string::String> as RepeatedValue<raw::String>>::lemma_countable(&self.reserved_name, 5u32);
            assert(all == d4 + (p5 + rest5));
            assert(d4 + (p5 + rest5) =~= d4 + p5 + rest5);
        }
        let r5 = <RepeatedField<std::string::String> as RepeatedValue<raw::String>>::calculate_size(&self.reserved_name, b4, FieldNumber::new_unchecked(5));
        proof {
            lemma_size_chain(0, d4, p5, Some(b4), r5);
            if r5 is None {
                lemma_size_chain(0, d4 + p5, rest5, r5, r5);
            }
        }
        let b5 = match r5 {
            Some(b) => b,
            None => return None,
        };
        let ghost d5 = d4 + p5;
        let ghost p6 = set_parts(v.unknown_fields);
        let ghost rest6 = Seq::<(bool, Seq<u8>)>::empty();
        proof {
            assert(all == d5 + p6);
            assert(p6 + rest6 =~= p6);
            assert(d5 + (p6 + rest6) =~= d5 + p6 + rest6);
        }
        let r6 = self.unknown_fields.calculate_size(b5);
        proof {
            lemma_size_chain(0, d5, p6, Some(b5), r6);
            if r6 is None {
                lemma_size_chain(0, d5 + p6, rest6, r6, r6);
            }
        }
        let b6 = match r6 {
            Some(b) => b,
            None => return None,
        };
        let ghost d6 = d5 + p6;
        Some(b6.build())
    }

    /// Writes the message to the writer: its fields that are set, in field number order, then
    /// its unknown fields.
    #[verifier::spinoff_prover]
    pub fn write_to(&self, output: &mut CodedWriter) -> (r: WriteResult)
        ensures
            (final(output).written(), r) == parts_written(old(output).written(), old(output).capacity(), enum_descriptor_proto_parts(self@)),
            final(output).capacity() == old(output).capacity(),
            (*final(final(output).target()))@ == (*final(old(output).target()))@,
    {
        let ghost v = self@;
        let ghost all = enum_descriptor_proto_parts(v);
        let ghost start = output.written();
        let ghost cap = output.capacity();
        let ghost d0 = Seq::<(bool, Seq<u8>)>::empty();
        proof {
            reveal(enum_descriptor_proto_parts);
            assert(all =~= d0 + all);
        }
        let ghost p1 = opt_field_parts::<raw::String>(1u32, v.name);
        let ghost rest1 = enum_value_descriptor_proto_seq_parts(2u32, v.value) + (enum_options_opt_parts(3u32, v.options) + (enum_reserved_range_seq_parts(4u32, v.reserved_range) + (unpacked_parts::<raw::String>(5u32, v.reserved_name) + (set_parts(v.unknown_fields)))));
        proof {
            assert(self@.name == opt_inner_view::<raw::String>(self.name));
            assert(all == d0 + (p1 + rest1));
            assert(d0 + (p1 + rest1) =~= d0 + p1 + rest1);
            lemma_parts_written_append(start, cap, d0, p1);
            lemma_parts_written_append(start, cap, d0 + p1, rest1);
        }
        match write_opt_field::<raw::String>(output, FieldNumber::new_unchecked(1), &self.name) {
            Ok(()) => {},
            Err(e) => return Err(e),
        }
        let ghost d1 = d0 + p1;
        let ghost p2 = enum_value_descriptor_proto_seq_parts(2u32, v.value);
        let ghost rest2 = enum_options_opt_parts(3u32, v.options) + (enum_reserved_range_seq_parts(4u32, v.reserved_range) + (unpacked_parts::<raw::String>(5u32, v.reserved_name) + (set_parts(v.unknown_fields))));
        proof {
            assert(all == d1 + (p2 + rest2));
            assert(d1 + (p2 + rest2) =~= d1 + p2 + rest2);
            lemma_parts_written_append(start, cap, d1, p2);
            lemma_parts_written_append(start, cap, d1 + p2, rest2);
        }
        match write_enum_value_descriptor_proto_values(&self.value, output, FieldNumber::new_unchecked(2)) {
            Ok(()) => {},
            Err(e) => return Err(e),
        }
        let ghost d2 = d1 + p2;
        let ghost p3 = enum_options_opt_parts(3u32, v.options);
        let ghost rest3 = enum_reserved_range_seq_parts(4u32, v.reserved_range) + (unpacked_parts::<raw::String>(5u32, v.reserved_name) + (set_parts(v.unknown_fields)));
        proof {
            assert(self@.options == opt_view(self.options));
            assert(all == d2 + (p3 + rest3));
            assert(d2 + (p3 + rest3) =~= d2 + p3 + rest3);
            lemma_parts_written_append(start, cap, d2, p3);
            lemma_parts_written_append(start, cap, d2 + p3, rest3);
        }
        match write_enum_options_opt(&self.options, output, FieldNumber::new_unchecked(3)) {
            Ok(()) => {},
            Err(e) => return Err(e),
        }
        let ghost d3 = d2 + p3;
        let ghost p4 = enum_reserved_range_seq_parts(4u32, v.reserved_range);
        let ghost rest4 = unpacked_parts::<raw::String>(5u32, v.reserved_name) + (set_parts(v.unknown_fields));
        proof {
            assert(all == d3 + (p4 + rest4));
            assert(d3 + (p4 + rest4) =~= d3 + p4 + rest4);
            lemma_parts_written_append(start, cap, d3, p4);
            lemma_parts_written_append(start, cap, d3 + p4, rest4);
        }
        match write_enum_reserved_range_values(&self.reserved_range, output, FieldNumber::new_unchecked(4)) {
            Ok(()) => {},
            Err(e) => return Err(e),
        }
        let ghost d4 = d3 + p4;
        let ghost p5 = unpacked_parts::<raw::String>(5u32, v.reserved_name);
        let ghost rest5 = set_parts(v.unknown_fields);
        proof {
            assert(all == d4 + (p5 + rest5));
            assert(d4 + (p5 + rest5) =~= d4 + p5 + rest5);
            lemma_parts_written_append(start, cap, d4, p5);
            lemma_parts_written_append(start, cap, d4 + p5, rest5);
        }
        match <RepeatedField<std::string::String> as RepeatedValue<raw::String>>::write_to(&self.reserved_name, output, FieldNumber::new_unchecked(5)) {
            Ok(()) => {},
            Err(e) => return Err(e),
        }
        let ghost d5 = d4 + p5;
        let ghost p6 = set_parts(v.unknown_fields);
        let ghost rest6 = Seq::<(bool, Seq<u8>)>::empty();
        proof {
            assert(all == d5 + p6);
            assert(p6 + rest6 =~= p6);
            assert(d5 + (p6 + rest6) =~= d5 + p6 + rest6);
            lemma_parts_written_append(start, cap, d5, p6);
            lemma_parts_written_append(start, cap, d5 + p6, rest6);
        }
        match self.unknown_fields.write_to(output) {
            Ok(()) => {},
            Err(e) => return Err(e),
        }
        let ghost d6 = d5 + p6;
        proof {
            assert(all =~= d6 + Seq::<(bool, Seq<u8>)>::empty());
            assert(all == d6);
            lemma_ok_unit(parts_written(start, cap, all).1);
        }
        Ok(())
    }

    /// Reads the value of the field whose tag value `t` was just read into the message.
    #[verifier::spinoff_prover]
    fn merge_field(&mut self, t: u32, input: &mut CodedReader) -> (r: ReadResult<()>)
        ensures
            match enum_descriptor_proto_field_read(old(self)@, t, old(input).available(), old(input).depth(), old(input).recursion_limit(), skips(*old(input)), old(input).end_group_view()) {
                Ok((m, v2)) => r is Ok && final(self)@ == v2 && m >= 0 && final(input).position()
                    == old(input).position() + m && same_state(*old(input), *final(input)),
                Err(e) => r == Err::<(), ReadError>(e) && same_config(*old(input), *final(input)),
            },
    {
        let rem0 = input.remaining();
        let ghost rest = input.available();
        if t == 10u32 {
            proof {
                <raw::String as Value>::lemma_decoding_len(rest);
            }
            input.set_last_tag(Some(Tag::new(FieldNumber::new_unchecked(1), WireType::LengthDelimited)));
            match <raw::String as Value>::merge_from(self.name.get_or_insert(std::string::String::new()), input) {
                Ok(()) => {},
                Err(e) => return Err(e),
            }
        } else if t == 18u32 {
            proof {
                lemma_length_delimited_read_len(rest);
            }
            input.set_last_tag(Some(Tag::new(FieldNumber::new_unchecked(2), WireType::LengthDelimited)));
            let mut y = EnumValueDescriptorProto::default();
            match merge_enum_value_descriptor_proto_delimited(&mut y, input) {
                Ok(()) => {},
                Err(e) => return Err(e),
            }
            let ghost old_values = self.value@;
            self.value.push(y);
            proof {
                assert(self.value@.subrange(0, self.value@.len() - 1) =~= old_values);
            }
        } else if t == 26u32 {
            proof {
                lemma_length_delimited_read_len(rest);
            }
            input.set_last_tag(Some(Tag::new(FieldNumber::new_unchecked(3), WireType::LengthDelimited)));
            match &mut self.options {
                Some(y) => match merge_enum_options_delimited(y, input) {
                    Ok(()) => {},
                    Err(e) => return Err(e),
                },
                None => {
                    let mut y = EnumOptions::default();
                    match merge_enum_options_delimited(&mut y, input) {
                        Ok(()) => {},
                        Err(e) => return Err(e),
                    }
                    self.options = Some(y);
                },
            }
        } else if t == 34u32 {
            proof {
                lemma_length_delimited_read_len(rest);
            }
            input.set_last_tag(Some(Tag::new(FieldNumber::new_unchecked(4), WireType::LengthDelimited)));
            let mut y = EnumReservedRange::default();
            match merge_enum_reserved_range_delimited(&mut y, input) {
                Ok(()) => {},
                Err(e) => return Err(e),
            }
            let ghost old_values = self.reserved_range@;
            self.reserved_range.push(y);
            proof {
                assert(self.reserved_range@.subrange(0, self.reserved_range@.len() - 1) =~= old_values);
            }
        } else if t == 42u32 {
            proof {
                <raw::String as Value>::lemma_decoding_len(rest);
            }
            input.set_last_tag(Some(Tag::new(FieldNumber::new_unchecked(5), WireType::LengthDelimited)));
            match <RepeatedField<std::string::String> as RepeatedValue<raw::String>>::add_entries_from(&mut self.reserved_name, input) {
                Ok(()) => {},
                Err(e) => return Err(e),
            }
        } else {
            let tag = match Tag::try_from(t) {
                Ok(tag) => tag,
                Err(_) => return Err(ReadError::InvalidTag(t)),
            };
            input.set_last_tag(Some(tag));
            match self.unknown_fields.try_add_field_from(input) {
                Ok(TryRead::Consumed) => {},
                Ok(TryRead::Yielded) => match input.skip() {
                    Ok(()) => {},
                    Err(e) => return Err(e),
                },
                Err(e) => return Err(e),
            }
        }
        let rem1 = input.remaining();
        Ok(())
    }

    /// Merges the message with fields read from the reader, up to its limit. Scalar fields
    /// read replace those set, message fields are merged, repeated fields are added to,
    /// and unknown fields are stored or skipped as the reader says. On an error the message
    /// may hold some of the fields read before it.
    #[verifier::spinoff_prover]
    #[verifier::rlimit(50)]
    pub fn merge_from(&mut self, input: &mut CodedReader) -> (r: ReadResult<()>)
        ensures
            merge_outcome(enum_descriptor_proto_merged(old(self)@, old(input).available(), old(input).depth(), old(input).recursion_limit(), skips(*old(input)), old(input).end_group_view()), final(self)@, *old(input), *final(input), r),
    {
        let rem0 = input.remaining();
        let ghost start = *input;
        let ghost total = enum_descriptor_proto_merged(self@, input.available(), input.depth(), input.recursion_limit(), skips(*input), input.end_group_view());
        loop
            invariant
                start == *old(input),
                same_state(start, *input),
                0 <= start.position() <= input.position(),
                input.limit_end() <= input.input().len(),
                total == enum_descriptor_proto_merged(old(self)@, start.available(), start.depth(), start.recursion_limit(), skips(start), start.end_group_view()),
                total == enum_descriptor_proto_merged(self@, input.available(), start.depth(), start.recursion_limit(), skips(start), start.end_group_view()),
            decreases input.available().len(),
        {
            let ghost s = input.available();
            let ghost before = *input;
            let ghost v = self@;
            let t = match input.read_field() {
                Ok(Some(t)) => t,
                Ok(None) => return Ok(()),
                Err(e) => return Err(e),
            };
            let rem1 = input.remaining();
            let ghost n = input.position() - before.position();
            proof {
                lemma_varint_read_len(s);
                assert(input.available() =~= s.skip(n));
            }
            let ghost mid = *input;
            match self.merge_field(t, input) {
                Ok(()) => {},
                Err(e) => return Err(e),
            }
            let rem2 = input.remaining();
            proof {
                let m = input.position() - mid.position();
                assert(input.available() =~= s.skip(n + m));
            }
        }
    }
}

impl crate::Message for EnumDescriptorProto {
    open spec fn merged(v: EnumDescriptorProtoView, s: Seq<u8>, depth: nat, limit: nat, skip: bool, eg: Option<Tag>) -> ReadResult<EnumDescriptorProtoView> {
        enum_descriptor_proto_merged(v, s, depth, limit, skip, eg)
    }

    open spec fn parts(v: EnumDescriptorProtoView) -> Seq<(bool, Seq<u8>)> {
        enum_descriptor_proto_parts(v)
    }

    open spec fn initialized(v: EnumDescriptorProtoView) -> bool {
        true
    }

    open spec fn unknown_fields_of(v: EnumDescriptorProtoView) -> Seq<(u32, Seq<FieldValue>)> {
        v.unknown_fields
    }

    open spec fn with_unknown_fields(v: EnumDescriptorProtoView, u: Seq<(u32, Seq<FieldValue>)>) -> EnumDescriptorProtoView {
        EnumDescriptorProtoView { unknown_fields: u, ..v }
    }

    fn merge_from(&mut self, input: &mut CodedReader) -> (r: ReadResult<()>) {
        EnumDescriptorProto::merge_from(self, input)
    }

    fn calculate_size(&self) -> (r: Option<Length>) {
        EnumDescriptorProto::calculate_size(self)
    }

    fn write_to(&self, output: &mut CodedWriter) -> (r: WriteResult) {
        EnumDescriptorProto::write_to(self, output)
    }

    fn is_initialized(&self) -> (r: bool) {
        EnumDescriptorProto::is_initialized(self)
    }

    fn unknown_fields(&self) -> (r: &UnknownFieldSet) {
        EnumDescriptorProto::unknown_fields(self)
    }

    fn unknown_fields_mut(&mut self) -> (r: &mut UnknownFieldSet) {
        EnumDescriptorProto::unknown_fields_mut(self)
    }
}

impl DebugMessage for EnumDescriptorProto {
    open spec fn spec_full_name() -> Seq<char> {
        "google.protobuf.EnumDescriptorProto"@
    }

    open spec fn spec_name() -> Seq<char> {
        "EnumDescriptorProto"@
    }

    fn full_name() -> (r: &'static str) {
        "google.protobuf.EnumDescriptorProto"
    }

    fn name() -> (r: &'static str) {
        "EnumDescriptorProto"
    }
}

/// Whether `t` is the tag of a field a `EnumDescriptorProto` reads.
pub open spec fn enum_descriptor_proto_known_tag(t: u32) -> bool {
    t == 10u32 || t == 18u32 || t == 26u32 || t == 34u32 || t == 42u32
}

/// Whether a `EnumDescriptorProto` is read back as it is written, at nesting depth `depth` of a reader with
/// recursion limit `limit`: its messages are read back as written one level deeper, within
/// the limit; and its unknown fields are read back as written, none with the tag of one of
/// its fields.
pub open spec fn enum_descriptor_proto_roundtrips(v: EnumDescriptorProtoView, depth: nat, limit: nat) -> bool
{
    &&& (v.options matches Some(y) ==> depth < limit && enum_options_roundtrips(y, depth + 1, limit))
    &&& (v.value.len() > 0 ==> depth < limit)
    &&& forall|i: int| 0 <= i < v.value.len() ==> enum_value_descriptor_proto_roundtrips(#[trigger] v.value[i], depth + 1, limit)
    &&& (v.reserved_range.len() > 0 ==> depth < limit)
    &&& forall|i: int| 0 <= i < v.reserved_range.len() ==> enum_reserved_range_roundtrips(#[trigger] v.reserved_range[i], depth + 1, limit)
    &&& set_readable(v.unknown_fields)
    &&& forall|k: int| 0 <= k < set_pairs(v.unknown_fields).len() ==> !enum_descriptor_proto_known_tag(tag_value(
        #[trigger] set_pairs(v.unknown_fields)[k].0,
        field_value_wire_type(set_pairs(v.unknown_fields)[k].1),
    ))
}

/// Reading a `EnumDescriptorProto` field whose tag is read from the front of `s` and whose value is read after
/// it continues with the rest of `s`.
proof fn lemma_enum_descriptor_proto_step(v: EnumDescriptorProtoView, s: Seq<u8>, k: int, t: u32, m: int, v2: EnumDescriptorProtoView, depth: nat, limit: nat)
    requires
        varint_read(s) == Ok::<(int, u64), ReadError>((k, t as u64)),
        1 <= k <= s.len(),
        enum_descriptor_proto_field_read(v, t, s.skip(k), depth, limit, false, None) == Ok::<(int, EnumDescriptorProtoView), ReadError>((m, v2)),
        0 <= m,
        k + m <= s.len(),
    ensures
        enum_descriptor_proto_merged(v, s, depth, limit, false, None) == enum_descriptor_proto_merged(v2, s.skip(k + m), depth, limit, false, None),
{
    assert((t as u64) as u32 == t);
}

/// Reading the entries of `EnumValueDescriptorProto` values written as field `value` of a `EnumDescriptorProto` adds the values.
#[verifier::spinoff_prover]
#[verifier::rlimit(60)]
proof fn lemma_enum_descriptor_proto_read_value(v: EnumDescriptorProtoView, ys: Seq<EnumValueDescriptorProtoView>, rest: Seq<u8>, depth: nat, limit: nat)
    requires
        parts_encodable(enum_value_descriptor_proto_seq_parts(2u32, ys)),
        ys.len() > 0 ==> depth < limit,
        forall|i: int| 0 <= i < ys.len() ==> enum_value_descriptor_proto_roundtrips(#[trigger] ys[i], depth + 1, limit),
    ensures
        enum_descriptor_proto_merged(v, parts_bytes(enum_value_descriptor_proto_seq_parts(2u32, ys)) + rest, depth, limit, false, None) == enum_descriptor_proto_merged(
            EnumDescriptorProtoView { value: v.value + ys, ..v },
            rest,
            depth, limit, false, None,
        ),
    decreases ys.len(),
{
    if ys.len() == 0 {
        assert(parts_bytes(enum_value_descriptor_proto_seq_parts(2u32, ys)) + rest =~= rest);
        assert(v.value + ys =~= v.value);
    } else {
        let y = ys[0];
        let tail = ys.drop_first();
        assert forall|i: int| 0 <= i < tail.len() implies enum_value_descriptor_proto_roundtrips(#[trigger] tail[i], depth + 1, limit) by {
            assert(tail[i] == ys[i + 1]);
        }
        lemma_enum_value_descriptor_proto_seq_parts_front(2u32, ys);
        let ep = entry_parts(2u32, enum_value_descriptor_proto_parts(y));
        lemma_parts_encodable_two(ep, enum_value_descriptor_proto_seq_parts(2u32, tail));
        lemma_parts_bytes_append(ep, enum_value_descriptor_proto_seq_parts(2u32, tail));
        assert(ep[1].0);
        let after = parts_bytes(enum_value_descriptor_proto_seq_parts(2u32, tail)) + rest;
        let s = parts_bytes(enum_value_descriptor_proto_seq_parts(2u32, ys)) + rest;
        assert(s =~= parts_bytes(ep) + after);
        lemma_entry_bytes_read(2u32, enum_value_descriptor_proto_parts(y), after);
        lemma_tag_value(2u32, WireType::LengthDelimited);
        lemma_enum_value_descriptor_proto_roundtrip(y, depth + 1, limit);
        let hl = parts_bytes(ep).len() as int;
        let k = varint_len(18u64) as int;
        let v2 = EnumDescriptorProtoView { value: v.value.push(y), ..v };
        lemma_enum_descriptor_proto_step(v, s, k, 18u32, hl - k, v2, depth, limit);
        lemma_enum_descriptor_proto_read_value(v2, tail, rest, depth, limit);
        assert(v.value.push(y) + tail =~= v.value + ys);
    }
}

/// Reading the entries of `EnumReservedRange` values written as field `reserved_range` of a `EnumDescriptorProto` adds the values.
#[verifier::spinoff_prover]
#[verifier::rlimit(60)]
proof fn lemma_enum_descriptor_proto_read_reserved_range(v: EnumDescriptorProtoView, ys: Seq<EnumReservedRangeView>, rest: Seq<u8>, depth: nat, limit: nat)
    requires
        parts_encodable(enum_reserved_range_seq_parts(4u32, ys)),
        ys.len() > 0 ==> depth < limit,
        forall|i: int| 0 <= i < ys.len() ==> enum_reserved_range_roundtrips(#[trigger] ys[i], depth + 1, limit),
    ensures
        enum_descriptor_proto_merged(v, parts_bytes(enum_reserved_range_seq_parts(4u32, ys)) + rest, depth, limit, false, None) == enum_descriptor_proto_merged(
            EnumDescriptorProtoView { reserved_range: v.reserved_range + ys, ..v },
            rest,
            depth, limit, false, None,
        ),
    decreases ys.len(),
{
    if ys.len() == 0 {
        assert(parts_bytes(enum_reserved_range_seq_parts(4u32, ys)) + rest =~= rest);
        assert(v.reserved_range + ys =~= v.reserved_range);
    } else {
        let y = ys[0];
        let tail = ys.drop_first();
        assert forall|i: int| 0 <= i < tail.len() implies enum_reserved_range_roundtrips(#[trigger] tail[i], depth + 1, limit) by {
            assert(tail[i] == ys[i + 1]);
        }
        lemma_enum_reserved_range_seq_parts_front(4u32, ys);
        let ep = entry_parts(4u32, enum_reserved_range_parts(y));
        lemma_parts_encodable_two(ep, enum_reserved_range_seq_parts(4u32, tail));
        lemma_parts_bytes_append(ep, enum_reserved_range_seq_parts(4u32, tail));
        assert(ep[1].0);
        let after = parts_bytes(enum_reserved_range_seq_parts(4u32, tail)) + rest;
        let s = parts_bytes(enum_reserved_range_seq_parts(4u32, ys)) + rest;
        assert(s =~= parts_bytes(ep) + after);
        lemma_entry_bytes_read(4u32, enum_reserved_range_parts(y), after);
        lemma_tag_value(4u32, WireType::LengthDelimited);
        lemma_enum_reserved_range_roundtrip(y, depth + 1, limit);
        let hl = parts_bytes(ep).len() as int;
        let k = varint_len(34u64) as int;
        let v2 = EnumDescriptorProtoView { reserved_range: v.reserved_range.push(y), ..v };
        lemma_enum_descriptor_proto_step(v, s, k, 34u32, hl - k, v2, depth, limit);
        lemma_enum_descriptor_proto_read_reserved_range(v2, tail, rest, depth, limit);
        assert(v.reserved_range.push(y) + tail =~= v.reserved_range + ys);
    }
}

/// Reading the values written unpacked as field `reserved_name` of a `EnumDescriptorProto` adds the values.
proof fn lemma_enum_descriptor_proto_read_reserved_name(v: EnumDescriptorProtoView, vs: Seq<Seq<char>>, rest: Seq<u8>, depth: nat, limit: nat)
    requires
        forall|i: int| 0 <= i < vs.len() ==> <raw::String as Value>::encodable(#[trigger] vs[i]),
    ensures
        enum_descriptor_proto_merged(v, parts_bytes(unpacked_parts::<raw::String>(5u32, vs)) + rest, depth, limit, false, None) == enum_descriptor_proto_merged(
            EnumDescriptorProtoView { reserved_name: v.reserved_name + vs, ..v },
            rest,
            depth, limit, false, None,
        ),
    decreases vs.len(),
{
    if vs.len() == 0 {
        assert(parts_bytes(unpacked_parts::<raw::String>(5u32, vs)) + rest =~= rest);
        assert(v.reserved_name + vs =~= v.reserved_name);
    } else {
        let x = vs[0];
        let tail = vs.drop_first();
        assert forall|i: int| 0 <= i < tail.len() implies <raw::String as Value>::encodable(#[trigger] tail[i]) by {
            assert(tail[i] == vs[i + 1]);
        }
        lemma_unpacked_front::<raw::String>(5u32, vs);
        lemma_parts_bytes_append(field_parts::<raw::String>(5u32, x), unpacked_parts::<raw::String>(5u32, tail));
        let after = parts_bytes(unpacked_parts::<raw::String>(5u32, tail)) + rest;
        let s = parts_bytes(unpacked_parts::<raw::String>(5u32, vs)) + rest;
        assert(s =~= parts_bytes(field_parts::<raw::String>(5u32, x)) + after);
        lemma_field_bytes_read::<raw::String>(5u32, x, after);
        lemma_tag_value(5u32, WireType::LengthDelimited);
        let hl = parts_bytes(field_parts::<raw::String>(5u32, x)).len() as int;
        let k = varint_len(42u64) as int;
        let v2 = EnumDescriptorProtoView { reserved_name: v.reserved_name + seq![x], ..v };
        lemma_enum_descriptor_proto_step(v, s, k, 42u32, hl - k, v2, depth, limit);
        lemma_enum_descriptor_proto_read_reserved_name(v2, tail, rest, depth, limit);
        assert(v.reserved_name + seq![x] + tail =~= v.reserved_name + vs);
    }
}

/// Reading the field `name` of a `EnumDescriptorProto` written from `o` sets it to `o`, whatever it held; nothing
/// is written, and nothing changes, for `None`.
proof fn lemma_enum_descriptor_proto_read_name(d: EnumDescriptorProtoView, o: Option<Seq<char>>, rest: Seq<u8>, depth: nat, limit: nat)
    requires
        parts_encodable(opt_field_parts::<raw::String>(1u32, o)),
    ensures
        enum_descriptor_proto_merged(d, parts_bytes(opt_field_parts::<raw::String>(1u32, o)) + rest, depth, limit, false, None) == enum_descriptor_proto_merged(if o is Some { EnumDescriptorProtoView { name: o, ..d } } else { d }, rest, depth, limit, false, None),
{
    match o {
        None => {
            assert(parts_bytes(opt_field_parts::<raw::String>(1u32, o)) + rest =~= rest);
        },
        Some(x) => {
            let p = field_parts::<raw::String>(1u32, x);
            assert(p[1].0);
            let s = parts_bytes(p) + rest;
            lemma_field_bytes_read::<raw::String>(1u32, x, rest);
            lemma_tag_value(1u32, WireType::LengthDelimited);
            let hl = parts_bytes(p).len() as int;
            let k = varint_len(10u64) as int;
            let v2 = EnumDescriptorProtoView { name: Some(x), ..d };
            lemma_enum_descriptor_proto_step(d, s, k, 10u32, hl - k, v2, depth, limit);
        },
    }
}

/// Reading the field `options` of a `EnumDescriptorProto` written from `o`, where the message does not hold it,
/// sets it to `o`; nothing is written, and nothing changes, for `None`.
#[verifier::rlimit(40)]
proof fn lemma_enum_descriptor_proto_read_options(d: EnumDescriptorProtoView, o: Option<EnumOptionsView>, rest: Seq<u8>, depth: nat, limit: nat)
    requires
        o is Some ==> d.options is None,
        parts_encodable(enum_options_opt_parts(3u32, o)),
        o matches Some(y) ==> depth < limit && enum_options_roundtrips(y, depth + 1, limit),
    ensures
        enum_descriptor_proto_merged(d, parts_bytes(enum_options_opt_parts(3u32, o)) + rest, depth, limit, false, None) == enum_descriptor_proto_merged(if o is Some { EnumDescriptorProtoView { options: o, ..d } } else { d }, rest, depth, limit, false, None),
{
    match o {
        None => {
            assert(parts_bytes(enum_options_opt_parts(3u32, o)) + rest =~= rest);
        },
        Some(y) => {
            let ep = entry_parts(3u32, enum_options_parts(y));
            assert(ep[1].0);
            let s = parts_bytes(ep) + rest;
            lemma_entry_bytes_read(3u32, enum_options_parts(y), rest);
            lemma_tag_value(3u32, WireType::LengthDelimited);
            lemma_parts_encodable_two(entry_head(3u32, enum_options_parts(y)), enum_options_parts(y));
            lemma_enum_options_roundtrip(y, depth + 1, limit);
            let hl = parts_bytes(ep).len() as int;
            let k = varint_len(26u64) as int;
            let v2 = EnumDescriptorProtoView { options: Some(y), ..d };
            lemma_enum_descriptor_proto_step(d, s, k, 26u32, hl - k, v2, depth, limit);
            assert(s.skip(hl) == rest);
        },
    }
}

/// Reading the field `options` of a `EnumDescriptorProto` merges what is read into the value the message already
/// holds there (or into a default value, where it holds none): the field read from the bytes
/// written from `y` becomes the existing value with the bytes of `y` merged into it, and the
/// rest is read into the message so changed. Past the recursion limit the read is refused.
#[verifier::rlimit(40)]
pub proof fn lemma_enum_descriptor_proto_merge_options(d: EnumDescriptorProtoView, y: EnumOptionsView, rest: Seq<u8>, depth: nat, limit: nat)
    requires
        parts_encodable(enum_options_opt_parts(3u32, Some(y))),
    ensures
        enum_descriptor_proto_merged(d, parts_bytes(enum_options_opt_parts(3u32, Some(y))) + rest, depth, limit, false, None) == if depth >= limit {
            Err::<EnumDescriptorProtoView, ReadError>(ReadError::RecursionLimitExceeded)
        } else {
            match enum_options_merged(match d.options { Some(o) => o, None => enum_options_default() }, parts_bytes(enum_options_parts(y)), depth + 1, limit, false, None) {
                Ok(z) => enum_descriptor_proto_merged(EnumDescriptorProtoView { options: Some(z), ..d }, rest, depth, limit, false, None),
                Err(e) => Err(e),
            }
        },
{
    let ep = entry_parts(3u32, enum_options_parts(y));
    assert(enum_options_opt_parts(3u32, Some(y)) == ep);
    assert(ep[1].0);
    let s = parts_bytes(ep) + rest;
    lemma_entry_bytes_read(3u32, enum_options_parts(y), rest);
    lemma_tag_value(3u32, WireType::LengthDelimited);
    let hl = parts_bytes(ep).len() as int;
    let k = varint_len(26u64) as int;
    assert((26u64 as u64) as u32 == 26u32);
    if depth < limit {
        match enum_options_merged(match d.options { Some(o) => o, None => enum_options_default() }, parts_bytes(enum_options_parts(y)), depth + 1, limit, false, None) {
            Ok(z) => {
                let v2 = EnumDescriptorProtoView { options: Some(z), ..d };
                lemma_enum_descriptor_proto_step(d, s, k, 26u32, hl - k, v2, depth, limit);
                assert(s.skip(hl) == rest);
            },
            Err(e) => {},
        }
    }
}

/// Merging the bytes written for the field `options` of a `EnumDescriptorProto` from `y` into `d` merges `y` into
/// the value `d` holds there (or into a default value, where it holds none), as merging
/// messages does, where `y` is read back as written and the existing value holds none of the
/// message fields `y` holds.
pub proof fn lemma_enum_descriptor_proto_merge_options_written(d: EnumDescriptorProtoView, y: EnumOptionsView, rest: Seq<u8>, depth: nat, limit: nat)
    requires
        parts_encodable(enum_options_opt_parts(3u32, Some(y))),
        depth < limit,
        enum_options_roundtrips(y, depth + 1, limit),
    ensures
        enum_descriptor_proto_merged(d, parts_bytes(enum_options_opt_parts(3u32, Some(y))) + rest, depth, limit, false, None) == enum_descriptor_proto_merged(EnumDescriptorProtoView { options: Some(enum_options_merge_view(match d.options { Some(o) => o, None => enum_options_default() }, y)), ..d }, rest, depth, limit, false, None),
{
    lemma_enum_descriptor_proto_merge_options(d, y, rest, depth, limit);
    lemma_parts_encodable_two(entry_head(3u32, enum_options_parts(y)), enum_options_parts(y));
    assert(enum_options_opt_parts(3u32, Some(y)) == entry_parts(3u32, enum_options_parts(y)));
    lemma_enum_options_merge_written(match d.options { Some(o) => o, None => enum_options_default() }, y, depth + 1, limit);
}

/// Reading unknown field values written one after the other into a `EnumDescriptorProto`, none with the tag
/// of one of its fields, adds them to its unknown fields.
proof fn lemma_enum_descriptor_proto_read_unknown(v: EnumDescriptorProtoView, ps: Seq<(u32, FieldValue)>, rest: Seq<u8>, depth: nat, limit: nat)
    requires
        forall|k: int| 0 <= k < ps.len() ==> value_readable(#[trigger] ps[k].0, ps[k].1) && !enum_descriptor_proto_known_tag(
            tag_value(ps[k].0, field_value_wire_type(ps[k].1)),
        ),
    ensures
        enum_descriptor_proto_merged(v, parts_bytes(pairs_parts(ps)) + rest, depth, limit, false, None) == enum_descriptor_proto_merged(
            EnumDescriptorProtoView { unknown_fields: push_pairs(v.unknown_fields, ps), ..v },
            rest,
            depth, limit, false, None,
        ),
    decreases ps.len(),
{
    if ps.len() == 0 {
        assert(parts_bytes(pairs_parts(ps)) + rest =~= rest);
    } else {
        let n = ps[0].0;
        let fv = ps[0].1;
        let tail = ps.drop_first();
        assert forall|k: int| 0 <= k < tail.len() implies value_readable(#[trigger] tail[k].0, tail[k].1) && !enum_descriptor_proto_known_tag(
            tag_value(tail[k].0, field_value_wire_type(tail[k].1)),
        ) by {
            assert(tail[k] == ps[k + 1]);
        }
        assert(value_readable(ps[0].0, ps[0].1));
        lemma_parts_bytes_append(field_value_parts(n, fv), pairs_parts(tail));
        let after = parts_bytes(pairs_parts(tail)) + rest;
        let s = parts_bytes(pairs_parts(ps)) + rest;
        assert(s =~= parts_bytes(field_value_parts(n, fv)) + after);
        lemma_read_value_bytes(n, fv, after);
        let t = tag_value(n, field_value_wire_type(fv));
        let hl = parts_bytes(field_value_parts(n, fv)).len() as int;
        let k = varint_len(t as u64) as int;
        let v2 = EnumDescriptorProtoView { unknown_fields: view_push(v.unknown_fields, n, fv), ..v };
        lemma_enum_descriptor_proto_step(v, s, k, t, hl - k, v2, depth, limit);
        lemma_enum_descriptor_proto_read_unknown(v2, tail, rest, depth, limit);
    }
}

/// The writability of the parts of a `EnumDescriptorProto` is that of each field's parts.
proof fn lemma_enum_descriptor_proto_parts_encodable(v: EnumDescriptorProtoView)
    ensures
        parts_encodable(enum_descriptor_proto_parts(v)) == (parts_encodable(opt_field_parts::<raw::String>(1u32, v.name)) && parts_encodable(enum_value_descriptor_proto_seq_parts(2u32, v.value)) && parts_encodable(enum_options_opt_parts(3u32, v.options)) && parts_encodable(enum_reserved_range_seq_parts(4u32, v.reserved_range)) && parts_encodable(unpacked_parts::<raw::String>(5u32, v.reserved_name)) && parts_encodable(set_parts(v.unknown_fields))),
{
    reveal(enum_descriptor_proto_parts);
    let p0 = opt_field_parts::<raw::String>(1u32, v.name);
    let p1 = enum_value_descriptor_proto_seq_parts(2u32, v.value);
    let p2 = enum_options_opt_parts(3u32, v.options);
    let p3 = enum_reserved_range_seq_parts(4u32, v.reserved_range);
    let p4 = unpacked_parts::<raw::String>(5u32, v.reserved_name);
    let p5 = set_parts(v.unknown_fields);
    let q5 = p5;
    let q4 = p4 + q5;
    lemma_parts_encodable_two(p4, q5);
    let q3 = p3 + q4;
    lemma_parts_encodable_two(p3, q4);
    let q2 = p2 + q3;
    lemma_parts_encodable_two(p2, q3);
    let q1 = p1 + q2;
    lemma_parts_encodable_two(p1, q2);
    let q0 = p0 + q1;
    lemma_parts_encodable_two(p0, q1);
    assert(enum_descriptor_proto_parts(v) == q0);
}

/// The bytes of the parts of a `EnumDescriptorProto` are those of each field's parts, one after the other.
proof fn lemma_enum_descriptor_proto_parts_bytes(v: EnumDescriptorProtoView)
    ensures
        parts_bytes(enum_descriptor_proto_parts(v)) == parts_bytes(opt_field_parts::<raw::String>(1u32, v.name)) + (parts_bytes(enum_value_descriptor_proto_seq_parts(2u32, v.value)) + (parts_bytes(enum_options_opt_parts(3u32, v.options)) + (parts_bytes(enum_reserved_range_seq_parts(4u32, v.reserved_range)) + (parts_bytes(unpacked_parts::<raw::String>(5u32, v.reserved_name)) + parts_bytes(set_parts(v.unknown_fields)))))),
{
    reveal(enum_descriptor_proto_parts);
    let p0 = opt_field_parts::<raw::String>(1u32, v.name);
    let p1 = enum_value_descriptor_proto_seq_parts(2u32, v.value);
    let p2 = enum_options_opt_parts(3u32, v.options);
    let p3 = enum_reserved_range_seq_parts(4u32, v.reserved_range);
    let p4 = unpacked_parts::<raw::String>(5u32, v.reserved_name);
    let p5 = set_parts(v.unknown_fields);
    let q5 = p5;
    let q4 = p4 + q5;
    lemma_parts_bytes_append(p4, q5);
    let q3 = p3 + q4;
    lemma_parts_bytes_append(p3, q4);
    let q2 = p2 + q3;
    lemma_parts_bytes_append(p2, q3);
    let q1 = p1 + q2;
    lemma_parts_bytes_append(p1, q2);
    let q0 = p0 + q1;
    lemma_parts_bytes_append(p0, q1);
    assert(enum_descriptor_proto_parts(v) == q0);
}

/// The message a `EnumDescriptorProto` `d` becomes when `v` is merged into it: each field `v` holds once
/// replaces the one `d` holds, the values of each repeated field of `v` follow those of `d`,
/// and the unknown fields of `v` are added to those of `d`, field number by field number.
pub open spec fn enum_descriptor_proto_merge_view(d: EnumDescriptorProtoView, v: EnumDescriptorProtoView) -> EnumDescriptorProtoView {
    EnumDescriptorProtoView { name: newer_or(v.name, d.name), value: d.value + v.value, options: newer_or(v.options, d.options), reserved_range: d.reserved_range + v.reserved_range, reserved_name: d.reserved_name + v.reserved_name, unknown_fields: view_merge(d.unknown_fields, v.unknown_fields) }
}

/// Reading the bytes of the parts of a `EnumDescriptorProto` `v`, field by field, into `d` merges `v` into `d`.
#[verifier::spinoff_prover]
#[verifier::rlimit(60)]
proof fn lemma_enum_descriptor_proto_merge_all(d: EnumDescriptorProtoView, v: EnumDescriptorProtoView, depth: nat, limit: nat)
    requires
        parts_encodable(opt_field_parts::<raw::String>(1u32, v.name)),
        parts_encodable(enum_value_descriptor_proto_seq_parts(2u32, v.value)),
        parts_encodable(enum_options_opt_parts(3u32, v.options)),
        parts_encodable(enum_reserved_range_seq_parts(4u32, v.reserved_range)),
        parts_encodable(unpacked_parts::<raw::String>(5u32, v.reserved_name)),
        enum_descriptor_proto_roundtrips(v, depth, limit),
        v.options is Some ==> d.options is None,
        parts_bytes(enum_descriptor_proto_parts(v)) == parts_bytes(opt_field_parts::<raw::String>(1u32, v.name)) + (parts_bytes(enum_value_descriptor_proto_seq_parts(2u32, v.value)) + (parts_bytes(enum_options_opt_parts(3u32, v.options)) + (parts_bytes(enum_reserved_range_seq_parts(4u32, v.reserved_range)) + (parts_bytes(unpacked_parts::<raw::String>(5u32, v.reserved_name)) + parts_bytes(set_parts(v.unknown_fields)))))),
    ensures
        enum_descriptor_proto_merged(d, parts_bytes(enum_descriptor_proto_parts(v)), depth, limit, false, None) == Ok::<EnumDescriptorProtoView, ReadError>(enum_descriptor_proto_merge_view(d, v)),
{
    let p0 = opt_field_parts::<raw::String>(1u32, v.name);
    let p1 = enum_value_descriptor_proto_seq_parts(2u32, v.value);
    let p2 = enum_options_opt_parts(3u32, v.options);
    let p3 = enum_reserved_range_seq_parts(4u32, v.reserved_range);
    let p4 = unpacked_parts::<raw::String>(5u32, v.reserved_name);
    let p5 = set_parts(v.unknown_fields);
    let b0 = parts_bytes(p0);
    let b1 = parts_bytes(p1);
    let b2 = parts_bytes(p2);
    let b3 = parts_bytes(p3);
    let b4 = parts_bytes(p4);
    let b5 = parts_bytes(p5);
    let r5 = b5;
    let r4 = b4 + r5;
    let r3 = b3 + r4;
    let r2 = b2 + r3;
    let r1 = b1 + r2;
    let r0 = b0 + r1;
    let d0 = d;
    let d1 = EnumDescriptorProtoView { name: newer_or(v.name, d.name), ..d0 };
    assert(enum_descriptor_proto_merged(d0, r0, depth, limit, false, None) == enum_descriptor_proto_merged(d1, r1, depth, limit, false, None)) by {
        lemma_enum_descriptor_proto_read_name(d0, v.name, r1, depth, limit);
        assert((if v.name is Some { EnumDescriptorProtoView { name: v.name, ..d0 } } else { d0 }) == d1);
    }
    let d2 = EnumDescriptorProtoView { value: d.value + v.value, ..d1 };
    assert(enum_descriptor_proto_merged(d1, r1, depth, limit, false, None) == enum_descriptor_proto_merged(d2, r2, depth, limit, false, None)) by {
        lemma_enum_descriptor_proto_read_value(d1, v.value, r2, depth, limit);
        assert(EnumDescriptorProtoView { value: d1.value + v.value, ..d1 } == d2);
    }
    let d3 = EnumDescriptorProtoView { options: newer_or(v.options, d.options), ..d2 };
    assert(enum_descriptor_proto_merged(d2, r2, depth, limit, false, None) == enum_descriptor_proto_merged(d3, r3, depth, limit, false, None)) by {
        lemma_enum_descriptor_proto_read_options(d2, v.options, r3, depth, limit);
        assert((if v.options is Some { EnumDescriptorProtoView { options: v.options, ..d2 } } else { d2 }) == d3);
    }
    let d4 = EnumDescriptorProtoView { reserved_range: d.reserved_range + v.reserved_range, ..d3 };
    assert(enum_descriptor_proto_merged(d3, r3, depth, limit, false, None) == enum_descriptor_proto_merged(d4, r4, depth, limit, false, None)) by {
        lemma_enum_descriptor_proto_read_reserved_range(d3, v.reserved_range, r4, depth, limit);
        assert(EnumDescriptorProtoView { reserved_range: d3.reserved_range + v.reserved_range, ..d3 } == d4);
    }
    let d5 = EnumDescriptorProtoView { reserved_name: d.reserved_name + v.reserved_name, ..d4 };
    assert(enum_descriptor_proto_merged(d4, r4, depth, limit, false, None) == enum_descriptor_proto_merged(d5, r5, depth, limit, false, None)) by {
        lemma_unpacked_parts_encodable::<raw::String>(5u32, v.reserved_name);
        lemma_enum_descriptor_proto_read_reserved_name(d4, v.reserved_name, r5, depth, limit);
        assert(EnumDescriptorProtoView { reserved_name: d4.reserved_name + v.reserved_name, ..d4 } == d5);
    }
    let ps = set_pairs(v.unknown_fields);
    assert(enum_descriptor_proto_merged(d5, r5, depth, limit, false, None) == Ok::<EnumDescriptorProtoView, ReadError>(enum_descriptor_proto_merge_view(d, v))) by {
        lemma_set_pairs(v.unknown_fields, d.unknown_fields);
        lemma_entries_readable(v.unknown_fields);
        assert forall|k: int| 0 <= k < ps.len() implies value_readable(#[trigger] ps[k].0, ps[k].1) && !enum_descriptor_proto_known_tag(
            tag_value(ps[k].0, field_value_wire_type(ps[k].1)),
        ) by {
            assert(!enum_descriptor_proto_known_tag(tag_value(set_pairs(v.unknown_fields)[k].0, field_value_wire_type(set_pairs(v.unknown_fields)[k].1))));
        }
        lemma_enum_descriptor_proto_read_unknown(d5, ps, Seq::empty(), depth, limit);
        assert(b5 + Seq::<u8>::empty() =~= b5);
        let dl = EnumDescriptorProtoView { unknown_fields: push_pairs(d5.unknown_fields, ps), ..d5 };
        assert(dl == enum_descriptor_proto_merge_view(d, v));
    }
}

/// Reading the bytes of the parts of a `EnumDescriptorProto`, field by field, gives the message back.
proof fn lemma_enum_descriptor_proto_read_all(v: EnumDescriptorProtoView, depth: nat, limit: nat)
    requires
        parts_encodable(opt_field_parts::<raw::String>(1u32, v.name)),
        parts_encodable(enum_value_descriptor_proto_seq_parts(2u32, v.value)),
        parts_encodable(enum_options_opt_parts(3u32, v.options)),
        parts_encodable(enum_reserved_range_seq_parts(4u32, v.reserved_range)),
        parts_encodable(unpacked_parts::<raw::String>(5u32, v.reserved_name)),
        enum_descriptor_proto_roundtrips(v, depth, limit),
        parts_bytes(enum_descriptor_proto_parts(v)) == parts_bytes(opt_field_parts::<raw::String>(1u32, v.name)) + (parts_bytes(enum_value_descriptor_proto_seq_parts(2u32, v.value)) + (parts_bytes(enum_options_opt_parts(3u32, v.options)) + (parts_bytes(enum_reserved_range_seq_parts(4u32, v.reserved_range)) + (parts_bytes(unpacked_parts::<raw::String>(5u32, v.reserved_name)) + parts_bytes(set_parts(v.unknown_fields)))))),
    ensures
        enum_descriptor_proto_merged(enum_descriptor_proto_default(), parts_bytes(enum_descriptor_proto_parts(v)), depth, limit, false, None) == Ok::<EnumDescriptorProtoView, ReadError>(v),
{
    lemma_enum_descriptor_proto_merge_all(enum_descriptor_proto_default(), v, depth, limit);
    lemma_entries_readable(v.unknown_fields);
    lemma_merge_into_empty(v.unknown_fields);
    assert(Seq::empty() + v.value =~= v.value);
    assert(Seq::empty() + v.reserved_range =~= v.reserved_range);
    assert(Seq::empty() + v.reserved_name =~= v.reserved_name);
    assert(enum_descriptor_proto_merge_view(enum_descriptor_proto_default(), v) == v);
}

/// Merging what a `EnumDescriptorProto` `v` writes into a message `d` merges `v` into `d`: each field `v`
/// holds replaces the one `d` holds, repeated values follow those `d` holds, and unknown fields
/// are added to those of `d`, where `d` holds none of the message fields `v` holds (those are
/// merged into each other), at nesting depth `depth` of a reader with recursion limit `limit`
/// that keeps unknown fields, outside any group, where `v` is read back as written.
pub proof fn lemma_enum_descriptor_proto_merge_written(d: EnumDescriptorProtoView, v: EnumDescriptorProtoView, depth: nat, limit: nat)
    requires
        parts_encodable(enum_descriptor_proto_parts(v)),
        enum_descriptor_proto_roundtrips(v, depth, limit),
        v.options is Some ==> d.options is None,
    ensures
        enum_descriptor_proto_merged(d, parts_bytes(enum_descriptor_proto_parts(v)), depth, limit, false, None) == Ok::<EnumDescriptorProtoView, ReadError>(enum_descriptor_proto_merge_view(d, v)),
{
    lemma_enum_descriptor_proto_parts_encodable(v);
    lemma_enum_descriptor_proto_parts_bytes(v);
    lemma_enum_descriptor_proto_merge_all(d, v, depth, limit);
}

/// A `EnumDescriptorProto` is read back as it is written: merging the bytes of its parts into a default
/// message, at nesting depth `depth` of a reader with recursion limit `limit` that keeps
/// unknown fields, outside any group, gives the message back, where it is read back as written.
pub proof fn lemma_enum_descriptor_proto_roundtrip(v: EnumDescriptorProtoView, depth: nat, limit: nat)
    requires
        parts_encodable(enum_descriptor_proto_parts(v)),
        enum_descriptor_proto_roundtrips(v, depth, limit),
    ensures
        enum_descriptor_proto_merged(enum_descriptor_proto_default(), parts_bytes(enum_descriptor_proto_parts(v)), depth, limit, false, None) == Ok::<EnumDescriptorProtoView, ReadError>(v),
{
    lemma_enum_descriptor_proto_parts_encodable(v);
    lemma_enum_descriptor_proto_parts_bytes(v);
    lemma_enum_descriptor_proto_read_all(v, depth, limit);
}

/// The `EnumReservedRange` message of `descriptor.proto`.
#[derive(Clone, Debug)]
pub struct EnumReservedRange {
    start: Option<i32>,
    end: Option<i32>,
    unknown_fields: UnknownFieldSet,
}

/// The view of a `EnumReservedRange`: its fields, and its unknown fields.
pub struct EnumReservedRangeView {
    /// The `start` field.
    pub start: Option<i32>,
    /// The `end` field.
    pub end: Option<i32>,
    /// The unknown fields.
    pub unknown_fields: Seq<(u32, Seq<FieldValue>)>,
}

/// The view of a `EnumReservedRange` value.
pub closed spec fn enum_reserved_range_view(m: EnumReservedRange) -> EnumReservedRangeView
{
    EnumReservedRangeView {
        start: m.start,
        end: m.end,
        unknown_fields: m.unknown_fields@,
    }
}

/// The views of a run of `EnumReservedRange` values.
pub closed spec fn enum_reserved_range_seq_view(s: Seq<EnumReservedRange>) -> Seq<EnumReservedRangeView>
    decreases s,
{
    if s.len() == 0 {
        Seq::empty()
    } else {
        enum_reserved_range_seq_view(s.subrange(0, s.len() - 1)).push(enum_reserved_range_view(s[s.len() - 1]))
    }
}

/// The view of a `EnumReservedRange` with no field set.
pub open spec fn enum_reserved_range_default() -> EnumReservedRangeView {
    EnumReservedRangeView {
        start: None,
        end: None,
        unknown_fields: Seq::empty(),
    }
}

impl View for EnumReservedRange {
    type V = EnumReservedRangeView;

    open spec fn view(&self) -> EnumReservedRangeView {
        enum_reserved_range_view(*self)
    }
}

impl Default for EnumReservedRange {
    /// A message with no field set.
    fn default() -> (r: EnumReservedRange)
        ensures
            r@ == enum_reserved_range_default(),
    {
        let r = EnumReservedRange {
            start: None,
            end: None,
            unknown_fields: UnknownFieldSet::new(),
        };
        proof {
            assert(r@ =~= enum_reserved_range_default());
        }
        r
    }
}

impl EnumReservedRange {
    /// Gets the `start` field, or its default, `0`.
    pub fn start(&self) -> (r: i32)
        ensures
            r == self@.start.unwrap_or(0i32),
    {
        match self.start {
            Some(v) => v,
            None => 0i32,
        }
    }

    /// Gets the `start` field if it is set.
    pub fn start_option(&self) -> (r: Option<&i32>)
        ensures
            opt_ref_view(r) == self@.start,
    {
        self.start.as_ref()
    }

    /// Gets the `start` field for changing it, setting it to its type's default first if it
    /// is not set.
    pub fn start_mut(&mut self) -> (r: &mut i32)
        ensures
            (*r)@ == old(self)@.start.unwrap_or(0i32),
            final(self)@ == (EnumReservedRangeView { start: Some((*final(r))@), ..old(self)@ }),
    {
        self.start.get_or_insert(0i32)
    }

    /// Returns whether the `start` field is set.
    pub fn has_start(&self) -> (r: bool)
        ensures
            r == self@.start is Some,
    {
        self.start.is_some()
    }

    /// Sets the `start` field.
    pub fn set_start(&mut self, value: i32)
        ensures
            final(self)@ == (EnumReservedRangeView { start: Some(value@), ..old(self)@ }),
    {
        self.start = Some(value);
    }

    /// Takes the `start` field out, leaving it unset.
    pub fn take_start(&mut self) -> (r: Option<i32>)
        ensures
            opt_view(r) == old(self)@.start,
            final(self)@ == (EnumReservedRangeView { start: None, ..old(self)@ }),
    {
        self.start.take()
    }

    /// Clears the `start` field, leaving it unset.
    pub fn clear_start(&mut self)
        ensures
            final(self)@ == (EnumReservedRangeView { start: None, ..old(self)@ }),
    {
        self.start = None;
    }

    /// Gets the `end` field, or its default, `0`.
    pub fn end(&self) -> (r: i32)
        ensures
            r == self@.end.unwrap_or(0i32),
    {
        match self.end {
            Some(v) => v,
            None => 0i32,
        }
    }

    /// Gets the `end` field if it is set.
    pub fn end_option(&self) -> (r: Option<&i32>)
        ensures
            opt_ref_view(r) == self@.end,
    {
        self.end.as_ref()
    }

    /// Gets the `end` field for changing it, setting it to its type's default first if it
    /// is not set.
    pub fn end_mut(&mut self) -> (r: &mut i32)
        ensures
            (*r)@ == old(self)@.end.unwrap_or(0i32),
            final(self)@ == (EnumReservedRangeView { end: Some((*final(r))@), ..old(self)@ }),
    {
        self.end.get_or_insert(0i32)
    }

    /// Returns whether the `end` field is set.
    pub fn has_end(&self) -> (r: bool)
        ensures
            r == self@.end is Some,
    {
        self.end.is_some()
    }

    /// Sets the `end` field.
    pub fn set_end(&mut self, value: i32)
        ensures
            final(self)@ == (EnumReservedRangeView { end: Some(value@), ..old(self)@ }),
    {
        self.end = Some(value);
    }

    /// Takes the `end` field out, leaving it unset.
    pub fn take_end(&mut self) -> (r: Option<i32>)
        ensures
            opt_view(r) == old(self)@.end,
            final(self)@ == (EnumReservedRangeView { end: None, ..old(self)@ }),
    {
        self.end.take()
    }

    /// Clears the `end` field, leaving it unset.
    pub fn clear_end(&mut self)
        ensures
            final(self)@ == (EnumReservedRangeView { end: None, ..old(self)@ }),
    {
        self.end = None;
    }
}

/// The parts a `EnumReservedRange` is written as: its fields that are set, in field number order, then its
/// unknown fields.
#[verifier::opaque]
pub open spec fn enum_reserved_range_parts(v: EnumReservedRangeView) -> Seq<(bool, Seq<u8>)>
{
    opt_field_parts::<raw::Int32>(1u32, v.start) + (opt_field_parts::<raw::Int32>(2u32, v.end) + (set_parts(v.unknown_fields)))
}

/// The parts the `EnumReservedRange` values of a repeated field with field number `num` are written as:
/// for each, its tag, its length and its parts.
pub open spec fn enum_reserved_range_seq_parts(num: u32, ys: Seq<EnumReservedRangeView>) -> Seq<(bool, Seq<u8>)>
    decreases ys,
{
    if ys.len() == 0 {
        Seq::empty()
    } else {
        enum_reserved_range_seq_parts(num, ys.subrange(0, ys.len() - 1)) + entry_parts(num, enum_reserved_range_parts(ys[ys.len() - 1]))
    }
}

/// What reading the field with tag value `t` from the front of `rest` into `v` gives: the
/// number of bytes read and the message after, or the error.
pub open spec fn enum_reserved_range_field_read(v: EnumReservedRangeView, t: u32, rest: Seq<u8>, depth: nat, limit: nat, skip: bool, eg: Option<Tag>) -> ReadResult<(int, EnumReservedRangeView)>
{
    if t == 8u32 {
        match <raw::Int32 as Value>::decoding(rest) { Ok((m, x)) => Ok((m, EnumReservedRangeView { start: Some(x), ..v })), Err(e) => Err(e) }
    } else if t == 16u32 {
        match <raw::Int32 as Value>::decoding(rest) { Ok((m, x)) => Ok((m, EnumReservedRangeView { end: Some(x), ..v })), Err(e) => Err(e) }
    } else {
        match unknown_field_read(v.unknown_fields, t, rest, depth, limit, skip, eg) {
            Ok((m, u)) => Ok((m, EnumReservedRangeView { unknown_fields: u, ..v })),
            Err(e) => Err(e),
        }
    }
}

/// What reading all of `s` into `v` as `EnumReservedRange` fields gives: the message after, or the error.
/// `depth` and `limit` are the reader's depth and recursion limit, `skip` whether it skips
/// unknown fields, and `eg` the end tag of the group it is in.
pub open spec fn enum_reserved_range_merged(v: EnumReservedRangeView, s: Seq<u8>, depth: nat, limit: nat, skip: bool, eg: Option<Tag>) -> ReadResult<EnumReservedRangeView>
    decreases s.len(),
{
    if s.len() == 0 {
        Ok(v)
    } else {
        match varint_read(s) {
            Err(e) => Err(e),
            Ok((n, w)) => if n < 1 || n > s.len() {
                Err(eof())
            } else {
                match enum_reserved_range_field_read(v, w as u32, s.skip(n), depth, limit, skip, eg) {
                    Err(e) => Err(e),
                    Ok((m, v2)) => if m < 0 || n + m > s.len() {
                        Err(eof())
                    } else {
                        enum_reserved_range_merged(v2, s.skip(n + m), depth, limit, skip, eg)
                    },
                }
            },
        }
    }
}

/// The views of a run of `EnumReservedRange` values, value by value.
pub proof fn lemma_enum_reserved_range_seq_view(s: Seq<EnumReservedRange>)
    ensures
        enum_reserved_range_seq_view(s).len() == s.len(),
        forall|i: int| 0 <= i < s.len() ==> #[trigger] enum_reserved_range_seq_view(s)[i] == enum_reserved_range_view(s[i]),
    decreases s.len(),
{
    if s.len() > 0 {
        lemma_enum_reserved_range_seq_view(s.subrange(0, s.len() - 1));
        assert forall|i: int| 0 <= i < s.len() implies #[trigger] enum_reserved_range_seq_view(s)[i] == enum_reserved_range_view(s[i]) by {
            if i < s.len() - 1 {
                assert(s.subrange(0, s.len() - 1)[i] == s[i]);
            }
        }
    }
}

/// The parts of two runs of `EnumReservedRange` values are those of the first, then the second.
proof fn lemma_enum_reserved_range_seq_parts_append(num: u32, a: Seq<EnumReservedRangeView>, b: Seq<EnumReservedRangeView>)
    ensures
        enum_reserved_range_seq_parts(num, a + b) == enum_reserved_range_seq_parts(num, a) + enum_reserved_range_seq_parts(num, b),
    decreases b.len(),
{
    if b.len() == 0 {
        assert(a + b =~= a);
        assert(enum_reserved_range_seq_parts(num, a) + enum_reserved_range_seq_parts(num, b) =~= enum_reserved_range_seq_parts(num, a));
    } else {
        let ab = a + b;
        assert(ab.subrange(0, ab.len() - 1) =~= a + b.subrange(0, b.len() - 1));
        assert(ab[ab.len() - 1] == b[b.len() - 1]);
        lemma_enum_reserved_range_seq_parts_append(num, a, b.subrange(0, b.len() - 1));
        assert(enum_reserved_range_seq_parts(num, a + b) =~= enum_reserved_range_seq_parts(num, a) + enum_reserved_range_seq_parts(num, b));
    }
}

/// The parts of the first `i + 1` values of a run are those of the first `i`, then the entry
/// of value `i`; and those of the whole run are those of the first `i + 1`, then the rest.
proof fn lemma_enum_reserved_range_seq_parts_step(num: u32, ys: Seq<EnumReservedRangeView>, i: int)
    requires
        0 <= i < ys.len(),
    ensures
        enum_reserved_range_seq_parts(num, ys.take(i + 1)) == enum_reserved_range_seq_parts(num, ys.take(i)) + entry_parts(num, enum_reserved_range_parts(ys[i])),
        enum_reserved_range_seq_parts(num, ys) == enum_reserved_range_seq_parts(num, ys.take(i + 1)) + enum_reserved_range_seq_parts(num, ys.skip(i + 1)),
{
    assert(ys.take(i + 1).subrange(0, i) =~= ys.take(i));
    assert(ys.take(i + 1)[i] == ys[i]);
    lemma_enum_reserved_range_seq_parts_append(num, ys.take(i + 1), ys.skip(i + 1));
    assert(ys.take(i + 1) + ys.skip(i + 1) =~= ys);
}

/// The parts of `EnumReservedRange` values are those of the first value's entry, then those of the others.
proof fn lemma_enum_reserved_range_seq_parts_front(num: u32, ys: Seq<EnumReservedRangeView>)
    requires
        ys.len() > 0,
    ensures
        enum_reserved_range_seq_parts(num, ys) == entry_parts(num, enum_reserved_range_parts(ys[0])) + enum_reserved_range_seq_parts(num, ys.drop_first()),
{
    let one = seq![ys[0]];
    lemma_enum_reserved_range_seq_parts_append(num, one, ys.drop_first());
    assert(one + ys.drop_first() =~= ys);
    assert(one.subrange(0, 0) =~= Seq::<EnumReservedRangeView>::empty());
    assert(enum_reserved_range_seq_parts(num, Seq::<EnumReservedRangeView>::empty()) =~= Seq::<(bool, Seq<u8>)>::empty());
    assert(one[0] == ys[0]);
    assert(enum_reserved_range_seq_parts(num, one) =~= entry_parts(num, enum_reserved_range_parts(ys[0])));
}

/// Adds the size of the `EnumReservedRange` values of a repeated field with field number `num`.
fn enum_reserved_range_values_size(vs: &Vec<EnumReservedRange>, builder: LengthBuilder, num: FieldNumber) -> (r: Option<LengthBuilder>)
    ensures
        size_added(builder@ as int, parts_encodable(enum_reserved_range_seq_parts(num@, enum_reserved_range_seq_view(vs@))), parts_bytes(enum_reserved_range_seq_parts(num@, enum_reserved_range_seq_view(vs@))).len() as int, r),
{
    let ghost ys = enum_reserved_range_seq_view(vs@);
    proof {
        lemma_enum_reserved_range_seq_view(vs@);
        assert(ys.take(0) =~= Seq::<EnumReservedRangeView>::empty());
    }
    let mut b = builder;
    let mut i: usize = 0;
    while i < vs.len()
        invariant
            ys == enum_reserved_range_seq_view(vs@),
            ys.len() == vs@.len(),
            forall|k: int| 0 <= k < vs@.len() ==> #[trigger] ys[k] == enum_reserved_range_view(vs@[k]),
            i <= vs@.len(),
            size_added(builder@ as int, parts_encodable(enum_reserved_range_seq_parts(num@, ys.take(i as int))), parts_bytes(enum_reserved_range_seq_parts(num@, ys.take(i as int))).len() as int, Some(b)),
        decreases vs@.len() - i,
    {
        let ghost y = ys[i as int];
        let ghost done = enum_reserved_range_seq_parts(num@, ys.take(i as int));
        let ghost cur = entry_parts(num@, enum_reserved_range_parts(y));
        let ghost rest = enum_reserved_range_seq_parts(num@, ys.skip(i + 1));
        proof {
            lemma_enum_reserved_range_seq_parts_step(num@, ys, i as int);
        }
        let len = vs[i].calculate_size();
        let r = add_entry_size(b, num, len, Ghost(enum_reserved_range_parts(y)));
        proof {
            lemma_size_chain(builder@ as int, done, cur, Some(b), r);
        }
        b = match r {
            Some(b1) => b1,
            None => {
                proof {
                    lemma_size_prefix(builder@ as int, done + cur, rest);
                }
                return None;
            },
        };
        i = i + 1;
    }
    proof {
        assert(ys.take(i as int) =~= ys);
    }
    Some(b)
}

/// Writes the `EnumReservedRange` values of a repeated field with field number `num`: for each, its tag,
/// its length and its fields.
fn write_enum_reserved_range_values(vs: &Vec<EnumReservedRange>, output: &mut CodedWriter, num: FieldNumber) -> (r: WriteResult)
    ensures
        (final(output).written(), r) == parts_written(old(output).written(), old(output).capacity(), enum_reserved_range_seq_parts(num@, enum_reserved_range_seq_view(vs@))),
        final(output).capacity() == old(output).capacity(),
        (*final(final(output).target()))@ == (*final(old(output).target()))@,
{
    let ghost ys = enum_reserved_range_seq_view(vs@);
    let ghost start = output.written();
    let ghost cap = output.capacity();
    proof {
        lemma_enum_reserved_range_seq_view(vs@);
        assert(ys.take(0) =~= Seq::<EnumReservedRangeView>::empty());
    }
    let mut i: usize = 0;
    while i < vs.len()
        invariant
            ys == enum_reserved_range_seq_view(vs@),
            ys.len() == vs@.len(),
            forall|k: int| 0 <= k < vs@.len() ==> #[trigger] ys[k] == enum_reserved_range_view(vs@[k]),
            i <= vs@.len(),
            start == old(output).written(),
            cap == old(output).capacity(),
            output.capacity() == cap,
            (*final(output.target()))@ == (*final(old(output).target()))@,
            parts_written(start, cap, enum_reserved_range_seq_parts(num@, ys.take(i as int))).0 == output.written(),
            parts_written(start, cap, enum_reserved_range_seq_parts(num@, ys.take(i as int))).1 is Ok,
        decreases vs@.len() - i,
    {
        let ghost y = ys[i as int];
        let ghost done = enum_reserved_range_seq_parts(num@, ys.take(i as int));
        let ghost head = entry_head(num@, enum_reserved_range_parts(y));
        let ghost cur = head + enum_reserved_range_parts(y);
        let ghost rest = enum_reserved_range_seq_parts(num@, ys.skip(i + 1));
        let ghost w0 = output.written();
        proof {
            lemma_enum_reserved_range_seq_parts_step(num@, ys, i as int);
            lemma_parts_written_append(start, cap, done, cur);
            lemma_parts_written_append(start, cap, done + cur, rest);
            lemma_parts_written_append(w0, cap, head, enum_reserved_range_parts(y));
            reveal_with_fuel(parts_written, 3);
            assert(head.drop_first().drop_first() =~= Seq::<(bool, Seq<u8>)>::empty());
        }
        match output.write_tag(Tag::new(num, WireType::LengthDelimited)) {
            Ok(()) => {},
            Err(e) => return Err(e),
        }
        let len = match vs[i].calculate_size() {
            Some(len) => len,
            None => return Err(WriteError::ValueTooLarge),
        };
        match output.write_length(len) {
            Ok(()) => {},
            Err(e) => return Err(e),
        }
        match vs[i].write_to(output) {
            Ok(()) => {},
            Err(e) => return Err(e),
        }
        i = i + 1;
    }
    proof {
        assert(ys.take(i as int) =~= ys);
        lemma_ok_unit(parts_written(start, cap, enum_reserved_range_seq_parts(num@, ys)).1);
    }
    Ok(())
}

/// Reads a `EnumReservedRange` from the reader as a length delimited value, merging it into `this`, one
/// level deeper.
fn merge_enum_reserved_range_delimited(this: &mut EnumReservedRange, input: &mut CodedReader) -> (r: ReadResult<()>)
    ensures
        match length_delimited_read(old(input).available()) {
            Err(e) => r == Err::<(), ReadError>(e) && same_config(*old(input), *final(input)),
            Ok((m, b)) => if old(input).depth() >= old(input).recursion_limit() {
                r == Err::<(), ReadError>(ReadError::RecursionLimitExceeded) && same_config(*old(input), *final(input))
            } else {
                match enum_reserved_range_merged(old(this)@, b, old(input).depth() + 1, old(input).recursion_limit(), skips(*old(input)), old(input).end_group_view()) {
                    Ok(y) => r is Ok && final(this)@ == y && final(input).position() == old(input).position() + m
                        && same_state(*old(input), *final(input)),
                    Err(e) => r == Err::<(), ReadError>(e) && same_config(*old(input), *final(input)),
                }
            },
        },
{
    let rem0 = input.remaining();
    let ghost s = input.available();
    let ghost start = *input;
    let length = match input.read_length() {
        Ok(l) => l,
        Err(e) => return Err(e),
    };
    let rem1 = input.remaining();
    let ghost n0 = input.position() - start.position();
    proof {
        lemma_varint_read_len(s);
        assert(input.available() =~= s.skip(n0));
    }
    let previous = match input.push_length(length) {
        Ok(p) => p,
        Err(e) => return Err(e),
    };
    let rem2 = input.remaining();
    let ghost b = s.subrange(n0, n0 + length@);
    proof {
        assert(input.available() =~= b);
        assert(length_delimited_read(s) == Ok::<(int, Seq<u8>), ReadError>((n0 + length@, b)));
    }
    let ghost pushed = *input;
    match input.increment_recursion_count() {
        Ok(()) => {},
        Err(e) => {
            input.pop_length(previous);
            return Err(e);
        },
    }
    let r = this.merge_from(input);
    let rem3 = input.remaining();
    input.decrement_recursion_count();
    input.pop_length(previous);
    r
}

impl EnumReservedRange {
    /// Gets the unknown fields of the message.
    pub fn unknown_fields(&self) -> (r: &UnknownFieldSet)
        ensures
            r@ == self@.unknown_fields,
    {
        &self.unknown_fields
    }

    /// Gets the unknown fields of the message for changing them.
    pub fn unknown_fields_mut(&mut self) -> (r: &mut UnknownFieldSet)
        ensures
            (*r)@ == old(self)@.unknown_fields,
            final(self)@ == (EnumReservedRangeView { unknown_fields: (*final(r))@, ..old(self)@ }),
    {
        &mut self.unknown_fields
    }

    /// Returns whether the message is initialized: whether all its required fields are set.
    pub fn is_initialized(&self) -> (r: bool)
        ensures
            r,
    {
        true
    }

    /// Calculates the size of the message as it is written: `None` if a part cannot be
    /// written or the size does not fit in a length.
    #[verifier::spinoff_prover]
    pub fn calculate_size(&self) -> (r: Option<Length>)
        ensures
            opt_length(r) == parts_size(enum_reserved_range_parts(self@)),
    {
        let ghost v = self@;
        let ghost all = enum_reserved_range_parts(v);
        let b0 = LengthBuilder::new();
        let ghost d0 = Seq::<(bool, Seq<u8>)>::empty();
        proof {
            reveal(enum_reserved_range_parts);
            assert(all =~= d0 + all);
        }
        let ghost p1 = opt_field_parts::<raw::Int32>(1u32, v.start);
        let ghost rest1 = opt_field_parts::<raw::Int32>(2u32, v.end) + (set_parts(v.unknown_fields));
        proof {
            assert(self@.start == opt_inner_view::<raw::Int32>(self.start));
            assert(all == d0 + (p1 + rest1));
            assert(d0 + (p1 + rest1) =~= d0 + p1 + rest1);
        }
        let r1 = add_opt_field::<raw::Int32>(b0, FieldNumber::new_unchecked(1), &self.start);
        proof {
            lemma_size_chain(0, d0, p1, Some(b0), r1);
            if r1 is None {
                lemma_size_chain(0, d0 + p1, rest1, r1, r1);
            }
        }
        let b1 = match r1 {
            Some(b) => b,
            None => return None,
        };
        let ghost d1 = d0 + p1;
        let ghost p2 = opt_field_parts::<raw::Int32>(2u32, v.end);
        let ghost rest2 = set_parts(v.unknown_fields);
        proof {
            assert(self@.end == opt_inner_view::<raw::Int32>(self.end));
            assert(all == d1 + (p2 + rest2));
            assert(d1 + (p2 + rest2) =~= d1 + p2 + rest2);
        }
        let r2 = add_opt_field::<raw::Int32>(b1, FieldNumber::new_unchecked(2), &self.end);
        proof {
            lemma_size_chain(0, d1, p2, Some(b1), r2);
            if r2 is None {
                lemma_size_chain(0, d1 + p2, rest2, r2, r2);
            }
        }
        let b2 = match r2 {
            Some(b) => b,
            None => return None,
        };
        let ghost d2 = d1 + p2;
        let ghost p3 = set_parts(v.unknown_fields);
        let ghost rest3 = Seq::<(bool, Seq<u8>)>::empty();
        proof {
            assert(all == d2 + p3);
            assert(p3 + rest3 =~= p3);
            assert(d2 + (p3 + rest3) =~= d2 + p3 + rest3);
        }
        let r3 = self.unknown_fields.calculate_size(b2);
        proof {
            lemma_size_chain(0, d2, p3, Some(b2), r3);
            if r3 is None {
                lemma_size_chain(0, d2 + p3, rest3, r3, r3);
            }
        }
        let b3 = match r3 {
            Some(b) => b,
            None => return None,
        };
        let ghost d3 = d2 + p3;
        Some(b3.build())
    }

    /// Writes the message to the writer: its fields that are set, in field number order, then
    /// its unknown fields.
    #[verifier::spinoff_prover]
    pub fn write_to(&self, output: &mut CodedWriter) -> (r: WriteResult)
        ensures
            (final(output).written(), r) == parts_written(old(output).written(), old(output).capacity(), enum_reserved_range_parts(self@)),
            final(output).capacity() == old(output).capacity(),
            (*final(final(output).target()))@ == (*final(old(output).target()))@,
    {
        let ghost v = self@;
        let ghost all = enum_reserved_range_parts(v);
        let ghost start = output.written();
        let ghost cap = output.capacity();
        let ghost d0 = Seq::<(bool, Seq<u8>)>::empty();
        proof {
            reveal(enum_reserved_range_parts);
            assert(all =~= d0 + all);
        }
        let ghost p1 = opt_field_parts::<raw::Int32>(1u32, v.start);
        let ghost rest1 = opt_field_parts::<raw::Int32>(2u32, v.end) + (set_parts(v.unknown_fields));
        proof {
            assert(self@.start == opt_inner_view::<raw::Int32>(self.start));
            assert(all == d0 + (p1 + rest1));
            assert(d0 + (p1 + rest1) =~= d0 + p1 + rest1);
            lemma_parts_written_append(start, cap, d0, p1);
            lemma_parts_written_append(start, cap, d0 + p1, rest1);
        }
        match write_opt_field::<raw::Int32>(output, FieldNumber::new_unchecked(1), &self.start) {
            Ok(()) => {},
            Err(e) => return Err(e),
        }
        let ghost d1 = d0 + p1;
        let ghost p2 = opt_field_parts::<raw::Int32>(2u32, v.end);
        let ghost rest2 = set_parts(v.unknown_fields);
        proof {
            assert(self@.end == opt_inner_view::<raw::Int32>(self.end));
            assert(all == d1 + (p2 + rest2));
            assert(d1 + (p2 + rest2) =~= d1 + p2 + rest2);
            lemma_parts_written_append(start, cap, d1, p2);
            lemma_parts_written_append(start, cap, d1 + p2, rest2);
        }
        match write_opt_field::<raw::Int32>(output, FieldNumber::new_unchecked(2), &self.end) {
            Ok(()) => {},
            Err(e) => return Err(e),
        }
        let ghost d2 = d1 + p2;
        let ghost p3 = set_parts(v.unknown_fields);
        let ghost rest3 = Seq::<(bool, Seq<u8>)>::empty();
        proof {
            assert(all == d2 + p3);
            assert(p3 + rest3 =~= p3);
            assert(d2 + (p3 + rest3) =~= d2 + p3 + rest3);
            lemma_parts_written_append(start, cap, d2, p3);
            lemma_parts_written_append(start, cap, d2 + p3, rest3);
        }
        match self.unknown_fields.write_to(output) {
            Ok(()) => {},
            Err(e) => return Err(e),
        }
        let ghost d3 = d2 + p3;
        proof {
            assert(all =~= d3 + Seq::<(bool, Seq<u8>)>::empty());
            assert(all == d3);
            lemma_ok_unit(parts_written(start, cap, all).1);
        }
        Ok(())
    }

    /// Reads the value of the field whose tag value `t` was just read into the message.
    #[verifier::spinoff_prover]
    fn merge_field(&mut self, t: u32, input: &mut CodedReader) -> (r: ReadResult<()>)
        ensures
            match enum_reserved_range_field_read(old(self)@, t, old(input).available(), old(input).depth(), old(input).recursion_limit(), skips(*old(input)), old(input).end_group_view()) {
                Ok((m, v2)) => r is Ok && final(self)@ == v2 && m >= 0 && final(input).position()
                    == old(input).position() + m && same_state(*old(input), *final(input)),
                Err(e) => r == Err::<(), ReadError>(e) && same_config(*old(input), *final(input)),
            },
    {
        let rem0 = input.remaining();
        let ghost rest = input.available();
        if t == 8u32 {
            proof {
                <raw::Int32 as Value>::lemma_decoding_len(rest);
            }
            input.set_last_tag(Some(Tag::new(FieldNumber::new_unchecked(1), WireType::Varint)));
            match <raw::Int32 as Value>::merge_from(self.start.get_or_insert(0i32), input) {
                Ok(()) => {},
                Err(e) => return Err(e),
            }
        } else if t == 16u32 {
            proof {
                <raw::Int32 as Value>::lemma_decoding_len(rest);
            }
            input.set_last_tag(Some(Tag::new(FieldNumber::new_unchecked(2), WireType::Varint)));
            match <raw::Int32 as Value>::merge_from(self.end.get_or_insert(0i32), input) {
                Ok(()) => {},
                Err(e) => return Err(e),
            }
        } else {
            let tag = match Tag::try_from(t) {
                Ok(tag) => tag,
                Err(_) => return Err(ReadError::InvalidTag(t)),
            };
            input.set_last_tag(Some(tag));
            match self.unknown_fields.try_add_field_from(input) {
                Ok(TryRead::Consumed) => {},
                Ok(TryRead::Yielded) => match input.skip() {
                    Ok(()) => {},
                    Err(e) => return Err(e),
                },
                Err(e) => return Err(e),
            }
        }
        let rem1 = input.remaining();
        Ok(())
    }

    /// Merges the message with fields read from the reader, up to its limit. Scalar fields
    /// read replace those set, message fields are merged, repeated fields are added to,
    /// and unknown fields are stored or skipped as the reader says. On an error the message
    /// may hold some of the fields read before it.
    #[verifier::spinoff_prover]
    #[verifier::rlimit(50)]
    pub fn merge_from(&mut self, input: &mut CodedReader) -> (r: ReadResult<()>)
        ensures
            merge_outcome(enum_reserved_range_merged(old(self)@, old(input).available(), old(input).depth(), old(input).recursion_limit(), skips(*old(input)), old(input).end_group_view()), final(self)@, *old(input), *final(input), r),
    {
        let rem0 = input.remaining();
        let ghost start = *input;
        let ghost total = enum_reserved_range_merged(self@, input.available(), input.depth(), input.recursion_limit(), skips(*input), input.end_group_view());
        loop
            invariant
                start == *old(input),
                same_state(start, *input),
                0 <= start.position() <= input.position(),
                input.limit_end() <= input.input().len(),
                total == enum_reserved_range_merged(old(self)@, start.available(), start.depth(), start.recursion_limit(), skips(start), start.end_group_view()),
                total == enum_reserved_range_merged(self@, input.available(), start.depth(), start.recursion_limit(), skips(start), start.end_group_view()),
            decreases input.available().len(),
        {
            let ghost s = input.available();
            let ghost before = *input;
            let ghost v = self@;
            let t = match input.read_field() {
                Ok(Some(t)) => t,
                Ok(None) => return Ok(()),
                Err(e) => return Err(e),
            };
            let rem1 = input.remaining();
            let ghost n = input.position() - before.position();
            proof {
                lemma_varint_read_len(s);
                assert(input.available() =~= s.skip(n));
            }
            let ghost mid = *input;
            match self.merge_field(t, input) {
                Ok(()) => {},
                Err(e) => return Err(e),
            }
            let rem2 = input.remaining();
            proof {
                let m = input.position() - mid.position();
                assert(input.available() =~= s.skip(n + m));
            }
        }
    }
}

impl crate::Message for EnumReservedRange {
    open spec fn merged(v: EnumReservedRangeView, s: Seq<u8>, depth: nat, limit: nat, skip: bool, eg: Option<Tag>) -> ReadResult<EnumReservedRangeView> {
        enum_reserved_range_merged(v, s, depth, limit, skip, eg)
    }

    open spec fn parts(v: EnumReservedRangeView) -> Seq<(bool, Seq<u8>)> {
        enum_reserved_range_parts(v)
    }

    open spec fn initialized(v: EnumReservedRangeView) -> bool {
        true
    }

    open spec fn unknown_fields_of(v: EnumReservedRangeView) -> Seq<(u32, Seq<FieldValue>)> {
        v.unknown_fields
    }

    open spec fn with_unknown_fields(v: EnumReservedRangeView, u: Seq<(u32, Seq<FieldValue>)>) -> EnumReservedRangeView {
        EnumReservedRangeView { unknown_fields: u, ..v }
    }

    fn merge_from(&mut self, input: &mut CodedReader) -> (r: ReadResult<()>) {
        EnumReservedRange::merge_from(self, input)
    }

    fn calculate_size(&self) -> (r: Option<Length>) {
        EnumReservedRange::calculate_size(self)
    }

    fn write_to(&self, output: &mut CodedWriter) -> (r: WriteResult) {
        EnumReservedRange::write_to(self, output)
    }

    fn is_initialized(&self) -> (r: bool) {
        EnumReservedRange::is_initialized(self)
    }

    fn unknown_fields(&self) -> (r: &UnknownFieldSet) {
        EnumReservedRange::unknown_fields(self)
    }

    fn unknown_fields_mut(&mut self) -> (r: &mut UnknownFieldSet) {
        EnumReservedRange::unknown_fields_mut(self)
    }
}

impl DebugMessage for EnumReservedRange {
    open spec fn spec_full_name() -> Seq<char> {
        "google.protobuf.EnumDescriptorProto.EnumReservedRange"@
    }

    open spec fn spec_name() -> Seq<char> {
        "EnumReservedRange"@
    }

    fn full_name() -> (r: &'static str) {
        "google.protobuf.EnumDescriptorProto.EnumReservedRange"
    }

    fn name() -> (r: &'static str) {
        "EnumReservedRange"
    }
}

/// Whether `t` is the tag of a field a `EnumReservedRange` reads.
pub open spec fn enum_reserved_range_known_tag(t: u32) -> bool {
    t == 8u32 || t == 16u32
}

/// Whether a `EnumReservedRange` is read back as it is written, at nesting depth `depth` of a reader with
/// recursion limit `limit`: its messages are read back as written one level deeper, within
/// the limit; and its unknown fields are read back as written, none with the tag of one of
/// its fields.
pub open spec fn enum_reserved_range_roundtrips(v: EnumReservedRangeView, depth: nat, limit: nat) -> bool
{
    &&& set_readable(v.unknown_fields)
    &&& forall|k: int| 0 <= k < set_pairs(v.unknown_fields).len() ==> !enum_reserved_range_known_tag(tag_value(
        #[trigger] set_pairs(v.unknown_fields)[k].0,
        field_value_wire_type(set_pairs(v.unknown_fields)[k].1),
    ))
}

/// Reading a `EnumReservedRange` field whose tag is read from the front of `s` and whose value is read after
/// it continues with the rest of `s`.
proof fn lemma_enum_reserved_range_step(v: EnumReservedRangeView, s: Seq<u8>, k: int, t: u32, m: int, v2: EnumReservedRangeView, depth: nat, limit: nat)
    requires
        varint_read(s) == Ok::<(int, u64), ReadError>((k, t as u64)),
        1 <= k <= s.len(),
        enum_reserved_range_field_read(v, t, s.skip(k), depth, limit, false, None) == Ok::<(int, EnumReservedRangeView), ReadError>((m, v2)),
        0 <= m,
        k + m <= s.len(),
    ensures
        enum_reserved_range_merged(v, s, depth, limit, false, None) == enum_reserved_range_merged(v2, s.skip(k + m), depth, limit, false, None),
{
    assert((t as u64) as u32 == t);
}

/// Reading the field `start` of a `EnumReservedRange` written from `o` sets it to `o`, whatever it held; nothing
/// is written, and nothing changes, for `None`.
proof fn lemma_enum_reserved_range_read_start(d: EnumReservedRangeView, o: Option<i32>, rest: Seq<u8>, depth: nat, limit: nat)
    requires
        parts_encodable(opt_field_parts::<raw::Int32>(1u32, o)),
    ensures
        enum_reserved_range_merged(d, parts_bytes(opt_field_parts::<raw::Int32>(1u32, o)) + rest, depth, limit, false, None) == enum_reserved_range_merged(if o is Some { EnumReservedRangeView { start: o, ..d } } else { d }, rest, depth, limit, false, None),
{
    match o {
        None => {
            assert(parts_bytes(opt_field_parts::<raw::Int32>(1u32, o)) + rest =~= rest);
        },
        Some(x) => {
            let p = field_parts::<raw::Int32>(1u32, x);
            assert(p[1].0);
            let s = parts_bytes(p) + rest;
            lemma_field_bytes_read::<raw::Int32>(1u32, x, rest);
            lemma_tag_value(1u32, WireType::Varint);
            let hl = parts_bytes(p).len() as int;
            let k = varint_len(8u64) as int;
            let v2 = EnumReservedRangeView { start: Some(x), ..d };
            lemma_enum_reserved_range_step(d, s, k, 8u32, hl - k, v2, depth, limit);
        },
    }
}

/// Reading the field `end` of a `EnumReservedRange` written from `o` sets it to `o`, whatever it held; nothing
/// is written, and nothing changes, for `None`.
proof fn lemma_enum_reserved_range_read_end(d: EnumReservedRangeView, o: Option<i32>, rest: Seq<u8>, depth: nat, limit: nat)
    requires
        parts_encodable(opt_field_parts::<raw::Int32>(2u32, o)),
    ensures
        enum_reserved_range_merged(d, parts_bytes(opt_field_parts::<raw::Int32>(2u32, o)) + rest, depth, limit, false, None) == enum_reserved_range_merged(if o is Some { EnumReservedRangeView { end: o, ..d } } else { d }, rest, depth, limit, false, None),
{
    match o {
        None => {
            assert(parts_bytes(opt_field_parts::<raw::Int32>(2u32, o)) + rest =~= rest);
        },
        Some(x) => {
            let p = field_parts::<raw::Int32>(2u32, x);
            assert(p[1].0);
            let s = parts_bytes(p) + rest;
            lemma_field_bytes_read::<raw::Int32>(2u32, x, rest);
            lemma_tag_value(2u32, WireType::Varint);
            let hl = parts_bytes(p).len() as int;
            let k = varint_len(16u64) as int;
            let v2 = EnumReservedRangeView { end: Some(x), ..d };
            lemma_enum_reserved_range_step(d, s, k, 16u32, hl - k, v2, depth, limit);
        },
    }
}

/// Reading unknown field values written one after the other into a `EnumReservedRange`, none with the tag
/// of one of its fields, adds them to its unknown fields.
proof fn lemma_enum_reserved_range_read_unknown(v: EnumReservedRangeView, ps: Seq<(u32, FieldValue)>, rest: Seq<u8>, depth: nat, limit: nat)
    requires
        forall|k: int| 0 <= k < ps.len() ==> value_readable(#[trigger] ps[k].0, ps[k].1) && !enum_reserved_range_known_tag(
            tag_value(ps[k].0, field_value_wire_type(ps[k].1)),
        ),
    ensures
        enum_reserved_range_merged(v, parts_bytes(pairs_parts(ps)) + rest, depth, limit, false, None) == enum_reserved_range_merged(
            EnumReservedRangeView { unknown_fields: push_pairs(v.unknown_fields, ps), ..v },
            rest,
            depth, limit, false, None,
        ),
    decreases ps.len(),
{
    if ps.len() == 0 {
        assert(parts_bytes(pairs_parts(ps)) + rest =~= rest);
    } else {
        let n = ps[0].0;
        let fv = ps[0].1;
        let tail = ps.drop_first();
        assert forall|k: int| 0 <= k < tail.len() implies value_readable(#[trigger] tail[k].0, tail[k].1) && !enum_reserved_range_known_tag(
            tag_value(tail[k].0, field_value_wire_type(tail[k].1)),
        ) by {
            assert(tail[k] == ps[k + 1]);
        }
        assert(value_readable(ps[0].0, ps[0].1));
        lemma_parts_bytes_append(field_value_parts(n, fv), pairs_parts(tail));
        let after = parts_bytes(pairs_parts(tail)) + rest;
        let s = parts_bytes(pairs_parts(ps)) + rest;
        assert(s =~= parts_bytes(field_value_parts(n, fv)) + after);
        lemma_read_value_bytes(n, fv, after);
        let t = tag_value(n, field_value_wire_type(fv));
        let hl = parts_bytes(field_value_parts(n, fv)).len() as int;
        let k = varint_len(t as u64) as int;
        let v2 = EnumReservedRangeView { unknown_fields: view_push(v.unknown_fields, n, fv), ..v };
        lemma_enum_reserved_range_step(v, s, k, t, hl - k, v2, depth, limit);
        lemma_enum_reserved_range_read_unknown(v2, tail, rest, depth, limit);
    }
}

/// The writability of the parts of a `EnumReservedRange` is that of each field's parts.
proof fn lemma_enum_reserved_range_parts_encodable(v: EnumReservedRangeView)
    ensures
        parts_encodable(enum_reserved_range_parts(v)) == (parts_encodable(opt_field_parts::<raw::Int32>(1u32, v.start)) && parts_encodable(opt_field_parts::<raw::Int32>(2u32, v.end)) && parts_encodable(set_parts(v.unknown_fields))),
{
    reveal(enum_reserved_range_parts);
    let p0 = opt_field_parts::<raw::Int32>(1u32, v.start);
    let p1 = opt_field_parts::<raw::Int32>(2u32, v.end);
    let p2 = set_parts(v.unknown_fields);
    let q2 = p2;
    let q1 = p1 + q2;
    lemma_parts_encodable_two(p1, q2);
    let q0 = p0 + q1;
    lemma_parts_encodable_two(p0, q1);
    assert(enum_reserved_range_parts(v) == q0);
}

/// The bytes of the parts of a `EnumReservedRange` are those of each field's parts, one after the other.
proof fn lemma_enum_reserved_range_parts_bytes(v: EnumReservedRangeView)
    ensures
        parts_bytes(enum_reserved_range_parts(v)) == parts_bytes(opt_field_parts::<raw::Int32>(1u32, v.start)) + (parts_bytes(opt_field_parts::<raw::Int32>(2u32, v.end)) + parts_bytes(set_parts(v.unknown_fields))),
{
    reveal(enum_reserved_range_parts);
    let p0 = opt_field_parts::<raw::Int32>(1u32, v.start);
    let p1 = opt_field_parts::<raw::Int32>(2u32, v.end);
    let p2 = set_parts(v.unknown_fields);
    let q2 = p2;
    let q1 = p1 + q2;
    lemma_parts_bytes_append(p1, q2);
    let q0 = p0 + q1;
    lemma_parts_bytes_append(p0, q1);
    assert(enum_reserved_range_parts(v) == q0);
}

/// The message a `EnumReservedRange` `d` becomes when `v` is merged into it: each field `v` holds once
/// replaces the one `d` holds, the values of each repeated field of `v` follow those of `d`,
/// and the unknown fields of `v` are added to those of `d`, field number by field number.
pub open spec fn enum_reserved_range_merge_view(d: EnumReservedRangeView, v: EnumReservedRangeView) -> EnumReservedRangeView {
    EnumReservedRangeView { start: newer_or(v.start, d.start), end: newer_or(v.end, d.end), unknown_fields: view_merge(d.unknown_fields, v.unknown_fields) }
}

/// Reading the bytes of the parts of a `EnumReservedRange` `v`, field by field, into `d` merges `v` into `d`.
#[verifier::spinoff_prover]
#[verifier::rlimit(60)]
proof fn lemma_enum_reserved_range_merge_all(d: EnumReservedRangeView, v: EnumReservedRangeView, depth: nat, limit: nat)
    requires
        parts_encodable(opt_field_parts::<raw::Int32>(1u32, v.start)),
        parts_encodable(opt_field_parts::<raw::Int32>(2u32, v.end)),
        enum_reserved_range_roundtrips(v, depth, limit),
        parts_bytes(enum_reserved_range_parts(v)) == parts_bytes(opt_field_parts::<raw::Int32>(1u32, v.start)) + (parts_bytes(opt_field_parts::<raw::Int32>(2u32, v.end)) + parts_bytes(set_parts(v.unknown_fields))),
    ensures
        enum_reserved_range_merged(d, parts_bytes(enum_reserved_range_parts(v)), depth, limit, false, None) == Ok::<EnumReservedRangeView, ReadError>(enum_reserved_range_merge_view(d, v)),
{
    let p0 = opt_field_parts::<raw::Int32>(1u32, v.start);
    let p1 = opt_field_parts::<raw::Int32>(2u32, v.end);
    let p2 = set_parts(v.unknown_fields);
    let b0 = parts_bytes(p0);
    let b1 = parts_bytes(p1);
    let b2 = parts_bytes(p2);
    let r2 = b2;
    let r1 = b1 + r2;
    let r0 = b0 + r1;
    let d0 = d;
    let d1 = EnumReservedRangeView { start: newer_or(v.start, d.start), ..d0 };
    assert(enum_reserved_range_merged(d0, r0, depth, limit, false, None) == enum_reserved_range_merged(d1, r1, depth, limit, false, None)) by {
        lemma_enum_reserved_range_read_start(d0, v.start, r1, depth, limit);
        assert((if v.start is Some { EnumReservedRangeView { start: v.start, ..d0 } } else { d0 }) == d1);
    }
    let d2 = EnumReservedRangeView { end: newer_or(v.end, d.end), ..d1 };
    assert(enum_reserved_range_merged(d1, r1, depth, limit, false, None) == enum_reserved_range_merged(d2, r2, depth, limit, false, None)) by {
        lemma_enum_reserved_range_read_end(d1, v.end, r2, depth, limit);
        assert((if v.end is Some { EnumReservedRangeView { end: v.end, ..d1 } } else { d1 }) == d2);
    }
    let ps = set_pairs(v.unknown_fields);
    assert(enum_reserved_range_merged(d2, r2, depth, limit, false, None) == Ok::<EnumReservedRangeView, ReadError>(enum_reserved_range_merge_view(d, v))) by {
        lemma_set_pairs(v.unknown_fields, d.unknown_fields);
        lemma_entries_readable(v.unknown_fields);
        assert forall|k: int| 0 <= k < ps.len() implies value_readable(#[trigger] ps[k].0, ps[k].1) && !enum_reserved_range_known_tag(
            tag_value(ps[k].0, field_value_wire_type(ps[k].1)),
        ) by {
            assert(!enum_reserved_range_known_tag(tag_value(set_pairs(v.unknown_fields)[k].0, field_value_wire_type(set_pairs(v.unknown_fields)[k].1))));
        }
        lemma_enum_reserved_range_read_unknown(d2, ps, Seq::empty(), depth, limit);
        assert(b2 + Seq::<u8>::empty() =~= b2);
        let dl = EnumReservedRangeView { unknown_fields: push_pairs(d2.unknown_fields, ps), ..d2 };
        assert(dl == enum_reserved_range_merge_view(d, v));
    }
}

/// Reading the bytes of the parts of a `EnumReservedRange`, field by field, gives the message back.
proof fn lemma_enum_reserved_range_read_all(v: EnumReservedRangeView, depth: nat, limit: nat)
    requires
        parts_encodable(opt_field_parts::<raw::Int32>(1u32, v.start)),
        parts_encodable(opt_field_parts::<raw::Int32>(2u32, v.end)),
        enum_reserved_range_roundtrips(v, depth, limit),
        parts_bytes(enum_reserved_range_parts(v)) == parts_bytes(opt_field_parts::<raw::Int32>(1u32, v.start)) + (parts_bytes(opt_field_parts::<raw::Int32>(2u32, v.end)) + parts_bytes(set_parts(v.unknown_fields))),
    ensures
        enum_reserved_range_merged(enum_reserved_range_default(), parts_bytes(enum_reserved_range_parts(v)), depth, limit, false, None) == Ok::<EnumReservedRangeView, ReadError>(v),
{
    lemma_enum_reserved_range_merge_all(enum_reserved_range_default(), v, depth, limit);
    lemma_entries_readable(v.unknown_fields);
    lemma_merge_into_empty(v.unknown_fields);
    assert(enum_reserved_range_merge_view(enum_reserved_range_default(), v) == v);
}

/// Merging what a `EnumReservedRange` `v` writes into a message `d` merges `v` into `d`: each field `v`
/// holds replaces the one `d` holds, repeated values follow those `d` holds, and unknown fields
/// are added to those of `d`, where `d` holds none of the message fields `v` holds (those are
/// merged into each other), at nesting depth `depth` of a reader with recursion limit `limit`
/// that keeps unknown fields, outside any group, where `v` is read back as written.
pub proof fn lemma_enum_reserved_range_merge_written(d: EnumReservedRangeView, v: EnumReservedRangeView, depth: nat, limit: nat)
    requires
        parts_encodable(enum_reserved_range_parts(v)),
        enum_reserved_range_roundtrips(v, depth, limit),
    ensures
        enum_reserved_range_merged(d, parts_bytes(enum_reserved_range_parts(v)), depth, limit, false, None) == Ok::<EnumReservedRangeView, ReadError>(enum_reserved_range_merge_view(d, v)),
{
    lemma_enum_reserved_range_parts_encodable(v);
    lemma_enum_reserved_range_parts_bytes(v);
    lemma_enum_reserved_range_merge_all(d, v, depth, limit);
}

/// A `EnumReservedRange` is read back as it is written: merging the bytes of its parts into a default
/// message, at nesting depth `depth` of a reader with recursion limit `limit` that keeps
/// unknown fields, outside any group, gives the message back, where it is read back as written.
pub proof fn lemma_enum_reserved_range_roundtrip(v: EnumReservedRangeView, depth: nat, limit: nat)
    requires
        parts_encodable(enum_reserved_range_parts(v)),
        enum_reserved_range_roundtrips(v, depth, limit),
    ensures
        enum_reserved_range_merged(enum_reserved_range_default(), parts_bytes(enum_reserved_range_parts(v)), depth, limit, false, None) == Ok::<EnumReservedRangeView, ReadError>(v),
{
    lemma_enum_reserved_range_parts_encodable(v);
    lemma_enum_reserved_range_parts_bytes(v);
    lemma_enum_reserved_range_read_all(v, depth, limit);
}

/// The `EnumValueDescriptorProto` message of `descriptor.proto`.
#[derive(Clone, Debug)]
pub struct EnumValueDescriptorProto {
    name: Option<String>,
    number: Option<i32>,
    options: Option<EnumValueOptions>,
    unknown_fields: UnknownFieldSet,
}

/// The view of a `EnumValueDescriptorProto`: its fields, and its unknown fields.
pub struct EnumValueDescriptorProtoView {
    /// The `name` field.
    pub name: Option<Seq<char>>,
    /// The `number` field.
    pub number: Option<i32>,
    /// The `options` field.
    pub options: Option<EnumValueOptionsView>,
    /// The unknown fields.
    pub unknown_fields: Seq<(u32, Seq<FieldValue>)>,
}

/// The view of a `EnumValueDescriptorProto` value.
pub closed spec fn enum_value_descriptor_proto_view(m: EnumValueDescriptorProto) -> EnumValueDescriptorProtoView
{
    EnumValueDescriptorProtoView {
        name: opt_view(m.name),
        number: m.number,
        options: match m.options { Some(x) => Some(enum_value_options_view(x)), None => None },
        unknown_fields: m.unknown_fields@,
    }
}

/// The views of a run of `EnumValueDescriptorProto` values.
pub closed spec fn enum_value_descriptor_proto_seq_view(s: Seq<EnumValueDescriptorProto>) -> Seq<EnumValueDescriptorProtoView>
    decreases s,
{
    if s.len() == 0 {
        Seq::empty()
    } else {
        enum_value_descriptor_proto_seq_view(s.subrange(0, s.len() - 1)).push(enum_value_descriptor_proto_view(s[s.len() - 1]))
    }
}

/// The view of a `EnumValueDescriptorProto` with no field set.
pub open spec fn enum_value_descriptor_proto_default() -> EnumValueDescriptorProtoView {
    EnumValueDescriptorProtoView {
        name: None,
        number: None,
        options: None,
        unknown_fields: Seq::empty(),
    }
}

impl View for EnumValueDescriptorProto {
    type V = EnumValueDescriptorProtoView;

    open spec fn view(&self) -> EnumValueDescriptorProtoView {
        enum_value_descriptor_proto_view(*self)
    }
}

impl Default for EnumValueDescriptorProto {
    /// A message with no field set.
    fn default() -> (r: EnumValueDescriptorProto)
        ensures
            r@ == enum_value_descriptor_proto_default(),
    {
        let r = EnumValueDescriptorProto {
            name: None,
            number: None,
            options: None,
            unknown_fields: UnknownFieldSet::new(),
        };
        proof {
            assert(r@ =~= enum_value_descriptor_proto_default());
        }
        r
    }
}

impl EnumValueDescriptorProto {
    /// Gets the `name` field, or its default, the empty string.
    pub fn name(&self) -> (r: &str)
        ensures
            r@ == text_or_empty(self@.name),
    {
        proof {
            reveal_strlit("");
        }
        match &self.name {
            Some(s) => s.as_str(),
            None => "",
        }
    }

    /// Gets the `name` field if it is set.
    pub fn name_option(&self) -> (r: Option<&String>)
        ensures
            opt_ref_view(r) == self@.name,
    {
        self.name.as_ref()
    }

    /// Gets the `name` field for changing it, setting it to its type's default first if it
    /// is not set.
    pub fn name_mut(&mut self) -> (r: &mut String)
        ensures
            (*r)@ == old(self)@.name.unwrap_or(Seq::<char>::empty()),
            final(self)@ == (EnumValueDescriptorProtoView { name: Some((*final(r))@), ..old(self)@ }),
    {
        self.name.get_or_insert(String::new())
    }

    /// Returns whether the `name` field is set.
    pub fn has_name(&self) -> (r: bool)
        ensures
            r == self@.name is Some,
    {
        self.name.is_some()
    }

    /// Sets the `name` field.
    pub fn set_name(&mut self, value: String)
        ensures
            final(self)@ == (EnumValueDescriptorProtoView { name: Some(value@), ..old(self)@ }),
    {
        self.name = Some(value);
    }

    /// Takes the `name` field out, leaving it unset.
    pub fn take_name(&mut self) -> (r: Option<String>)
        ensures
            opt_view(r) == old(self)@.name,
            final(self)@ == (EnumValueDescriptorProtoView { name: None, ..old(self)@ }),
    {
        self.name.take()
    }

    /// Clears the `name` field, leaving it unset.
    pub fn clear_name(&mut self)
        ensures
            final(self)@ == (EnumValueDescriptorProtoView { name: None, ..old(self)@ }),
    {
        self.name = None;
    }

    /// Gets the `number` field, or its default, `0`.
    pub fn number(&self) -> (r: i32)
        ensures
            r == self@.number.unwrap_or(0i32),
    {
        match self.number {
            Some(v) => v,
            None => 0i32,
        }
    }

    /// Gets the `number` field if it is set.
    pub fn number_option(&self) -> (r: Option<&i32>)
        ensures
            opt_ref_view(r) == self@.number,
    {
        self.number.as_ref()
    }

    /// Gets the `number` field for changing it, setting it to its type's default first if it
    /// is not set.
    pub fn number_mut(&mut self) -> (r: &mut i32)
        ensures
            (*r)@ == old(self)@.number.unwrap_or(0i32),
            final(self)@ == (EnumValueDescriptorProtoView { number: Some((*final(r))@), ..old(self)@ }),
    {
        self.number.get_or_insert(0i32)
    }

    /// Returns whether the `number` field is set.
    pub fn has_number(&self) -> (r: bool)
        ensures
            r == self@.number is Some,
    {
        self.number.is_some()
    }

    /// Sets the `number` field.
    pub fn set_number(&mut self, value: i32)
        ensures
            final(self)@ == (EnumValueDescriptorProtoView { number: Some(value@), ..old(self)@ }),
    {
        self.number = Some(value);
    }

    /// Takes the `number` field out, leaving it unset.
    pub fn take_number(&mut self) -> (r: Option<i32>)
        ensures
            opt_view(r) == old(self)@.number,
            final(self)@ == (EnumValueDescriptorProtoView { number: None, ..old(self)@ }),
    {
        self.number.take()
    }

    /// Clears the `number` field, leaving it unset.
    pub fn clear_number(&mut self)
        ensures
            final(self)@ == (EnumValueDescriptorProtoView { number: None, ..old(self)@ }),
    {
        self.number = None;
    }

    /// Gets the `options` field if it is set.
    pub fn options_option(&self) -> (r: Option<&EnumValueOptions>)
        ensures
            opt_ref_view(r) == self@.options,
    {
        self.options.as_ref()
    }

    /// Gets the `options` field for changing it, setting it to its type's default first if it
    /// is not set.
    pub fn options_mut(&mut self) -> (r: &mut EnumValueOptions)
        ensures
            (*r)@ == old(self)@.options.unwrap_or(enum_value_options_default()),
            final(self)@ == (EnumValueDescriptorProtoView { options: Some((*final(r))@), ..old(self)@ }),
    {
        self.options.get_or_insert(EnumValueOptions::default())
    }

    /// Returns whether the `options` field is set.
    pub fn has_options(&self) -> (r: bool)
        ensures
            r == self@.options is Some,
    {
        self.options.is_some()
    }

    /// Sets the `options` field.
    pub fn set_options(&mut self, value: EnumValueOptions)
        ensures
            final(self)@ == (EnumValueDescriptorProtoView { options: Some(value@), ..old(self)@ }),
    {
        self.options = Some(value);
    }

    /// Takes the `options` field out, leaving it unset.
    pub fn take_options(&mut self) -> (r: Option<EnumValueOptions>)
        ensures
            opt_view(r) == old(self)@.options,
            final(self)@ == (EnumValueDescriptorProtoView { options: None, ..old(self)@ }),
    {
        self.options.take()
    }

    /// Clears the `options` field, leaving it unset.
    pub fn clear_options(&mut self)
        ensures
            final(self)@ == (EnumValueDescriptorProtoView { options: None, ..old(self)@ }),
    {
        self.options = None;
    }
}

/// The parts a `EnumValueDescriptorProto` is written as: its fields that are set, in field number order, then its
/// unknown fields.
#[verifier::opaque]
pub open spec fn enum_value_descriptor_proto_parts(v: EnumValueDescriptorProtoView) -> Seq<(bool, Seq<u8>)>
{
    opt_field_parts::<raw::String>(1u32, v.name) + (opt_field_parts::<raw::Int32>(2u32, v.number) + (enum_value_options_opt_parts(3u32, v.options) + (set_parts(v.unknown_fields))))
}

/// The parts the `EnumValueDescriptorProto` values of a repeated field with field number `num` are written as:
/// for each, its tag, its length and its parts.
pub open spec fn enum_value_descriptor_proto_seq_parts(num: u32, ys: Seq<EnumValueDescriptorProtoView>) -> Seq<(bool, Seq<u8>)>
    decreases ys,
{
    if ys.len() == 0 {
        Seq::empty()
    } else {
        enum_value_descriptor_proto_seq_parts(num, ys.subrange(0, ys.len() - 1)) + entry_parts(num, enum_value_descriptor_proto_parts(ys[ys.len() - 1]))
    }
}

/// What reading the field with tag value `t` from the front of `rest` into `v` gives: the
/// number of bytes read and the message after, or the error.
pub open spec fn enum_value_descriptor_proto_field_read(v: EnumValueDescriptorProtoView, t: u32, rest: Seq<u8>, depth: nat, limit: nat, skip: bool, eg: Option<Tag>) -> ReadResult<(int, EnumValueDescriptorProtoView)>
{
    if t == 10u32 {
        match <raw::String as Value>::decoding(rest) { Ok((m, x)) => Ok((m, EnumValueDescriptorProtoView { name: Some(x), ..v })), Err(e) => Err(e) }
    } else if t == 16u32 {
        match <raw::Int32 as Value>::decoding(rest) { Ok((m, x)) => Ok((m, EnumValueDescriptorProtoView { number: Some(x), ..v })), Err(e) => Err(e) }
    } else if t == 26u32 {
        match length_delimited_read(rest) { Err(e) => Err(e), Ok((m, b)) => if depth >= limit { Err(ReadError::RecursionLimitExceeded) } else { match enum_value_options_merged(match v.options { Some(y) => y, None => enum_value_options_default() }, b, depth + 1, limit, skip, eg) { Ok(y) => Ok((m, EnumValueDescriptorProtoView { options: Some(y), ..v })), Err(e) => Err(e) } } }
    } else {
        match unknown_field_read(v.unknown_fields, t, rest, depth, limit, skip, eg) {
            Ok((m, u)) => Ok((m, EnumValueDescriptorProtoView { unknown_fields: u, ..v })),
            Err(e) => Err(e),
        }
    }
}

/// What reading all of `s` into `v` as `EnumValueDescriptorProto` fields gives: the message after, or the error.
/// `depth` and `limit` are the reader's depth and recursion limit, `skip` whether it skips
/// unknown fields, and `eg` the end tag of the group it is in.
pub open spec fn enum_value_descriptor_proto_merged(v: EnumValueDescriptorProtoView, s: Seq<u8>, depth: nat, limit: nat, skip: bool, eg: Option<Tag>) -> ReadResult<EnumValueDescriptorProtoView>
    decreases s.len(),
{
    if s.len() == 0 {
        Ok(v)
    } else {
        match varint_read(s) {
            Err(e) => Err(e),
            Ok((n, w)) => if n < 1 || n > s.len() {
                Err(eof())
            } else {
                match enum_value_descriptor_proto_field_read(v, w as u32, s.skip(n), depth, limit, skip, eg) {
                    Err(e) => Err(e),
                    Ok((m, v2)) => if m < 0 || n + m > s.len() {
                        Err(eof())
                    } else {
                        enum_value_descriptor_proto_merged(v2, s.skip(n + m), depth, limit, skip, eg)
                    },
                }
            },
        }
    }
}

/// The views of a run of `EnumValueDescriptorProto` values, value by value.
pub proof fn lemma_enum_value_descriptor_proto_seq_view(s: Seq<EnumValueDescriptorProto>)
    ensures
        enum_value_descriptor_proto_seq_view(s).len() == s.len(),
        forall|i: int| 0 <= i < s.len() ==> #[trigger] enum_value_descriptor_proto_seq_view(s)[i] == enum_value_descriptor_proto_view(s[i]),
    decreases s.len(),
{
    if s.len() > 0 {
        lemma_enum_value_descriptor_proto_seq_view(s.subrange(0, s.len() - 1));
        assert forall|i: int| 0 <= i < s.len() implies #[trigger] enum_value_descriptor_proto_seq_view(s)[i] == enum_value_descriptor_proto_view(s[i]) by {
            if i < s.len() - 1 {
                assert(s.subrange(0, s.len() - 1)[i] == s[i]);
            }
        }
    }
}

/// The parts of two runs of `EnumValueDescriptorProto` values are those of the first, then the second.
proof fn lemma_enum_value_descriptor_proto_seq_parts_append(num: u32, a: Seq<EnumValueDescriptorProtoView>, b: Seq<EnumValueDescriptorProtoView>)
    ensures
        enum_value_descriptor_proto_seq_parts(num, a + b) == enum_value_descriptor_proto_seq_parts(num, a) + enum_value_descriptor_proto_seq_parts(num, b),
    decreases b.len(),
{
    if b.len() == 0 {
        assert(a + b =~= a);
        assert(enum_value_descriptor_proto_seq_parts(num, a) + enum_value_descriptor_proto_seq_parts(num, b) =~= enum_value_descriptor_proto_seq_parts(num, a));
    } else {
        let ab = a + b;
        assert(ab.subrange(0, ab.len() - 1) =~= a + b.subrange(0, b.len() - 1));
        assert(ab[ab.len() - 1] == b[b.len() - 1]);
        lemma_enum_value_descriptor_proto_seq_parts_append(num, a, b.subrange(0, b.len() - 1));
        assert(enum_value_descriptor_proto_seq_parts(num, a + b) =~= enum_value_descriptor_proto_seq_parts(num, a) + enum_value_descriptor_proto_seq_parts(num, b));
    }
}

/// The parts of the first `i + 1` values of a run are those of the first `i`, then the entry
/// of value `i`; and those of the whole run are those of the first `i + 1`, then the rest.
proof fn lemma_enum_value_descriptor_proto_seq_parts_step(num: u32, ys: Seq<EnumValueDescriptorProtoView>, i: int)
    requires
        0 <= i < ys.len(),
    ensures
        enum_value_descriptor_proto_seq_parts(num, ys.take(i + 1)) == enum_value_descriptor_proto_seq_parts(num, ys.take(i)) + entry_parts(num, enum_value_descriptor_proto_parts(ys[i])),
        enum_value_descriptor_proto_seq_parts(num, ys) == enum_value_descriptor_proto_seq_parts(num, ys.take(i + 1)) + enum_value_descriptor_proto_seq_parts(num, ys.skip(i + 1)),
{
    assert(ys.take(i + 1).subrange(0, i) =~= ys.take(i));
    assert(ys.take(i + 1)[i] == ys[i]);
    lemma_enum_value_descriptor_proto_seq_parts_append(num, ys.take(i + 1), ys.skip(i + 1));
    assert(ys.take(i + 1) + ys.skip(i + 1) =~= ys);
}

/// The parts of `EnumValueDescriptorProto` values are those of the first value's entry, then those of the others.
proof fn lemma_enum_value_descriptor_proto_seq_parts_front(num: u32, ys: Seq<EnumValueDescriptorProtoView>)
    requires
        ys.len() > 0,
    ensures
        enum_value_descriptor_proto_seq_parts(num, ys) == entry_parts(num, enum_value_descriptor_proto_parts(ys[0])) + enum_value_descriptor_proto_seq_parts(num, ys.drop_first()),
{
    let one = seq![ys[0]];
    lemma_enum_value_descriptor_proto_seq_parts_append(num, one, ys.drop_first());
    assert(one + ys.drop_first() =~= ys);
    assert(one.subrange(0, 0) =~= Seq::<EnumValueDescriptorProtoView>::empty());
    assert(enum_value_descriptor_proto_seq_parts(num, Seq::<EnumValueDescriptorProtoView>::empty()) =~= Seq::<(bool, Seq<u8>)>::empty());
    assert(one[0] == ys[0]);
    assert(enum_value_descriptor_proto_seq_parts(num, one) =~= entry_parts(num, enum_value_descriptor_proto_parts(ys[0])));
}

/// Adds the size of the `EnumValueDescriptorProto` values of a repeated field with field number `num`.
fn enum_value_descriptor_proto_values_size(vs: &Vec<EnumValueDescriptorProto>, builder: LengthBuilder, num: FieldNumber) -> (r: Option<LengthBuilder>)
    ensures
        size_added(builder@ as int, parts_encodable(enum_value_descriptor_proto_seq_parts(num@, enum_value_descriptor_proto_seq_view(vs@))), parts_bytes(enum_value_descriptor_proto_seq_parts(num@, enum_value_descriptor_proto_seq_view(vs@))).len() as int, r),
{
    let ghost ys = enum_value_descriptor_proto_seq_view(vs@);
    proof {
        lemma_enum_value_descriptor_proto_seq_view(vs@);
        assert(ys.take(0) =~= Seq::<EnumValueDescriptorProtoView>::empty());
    }
    let mut b = builder;
    let mut i: usize = 0;
    while i < vs.len()
        invariant
            ys == enum_value_descriptor_proto_seq_view(vs@),
            ys.len() == vs@.len(),
            forall|k: int| 0 <= k < vs@.len() ==> #[trigger] ys[k] == enum_value_descriptor_proto_view(vs@[k]),
            i <= vs@.len(),
            size_added(builder@ as int, parts_encodable(enum_value_descriptor_proto_seq_parts(num@, ys.take(i as int))), parts_bytes(enum_value_descriptor_proto_seq_parts(num@, ys.take(i as int))).len() as int, Some(b)),
        decreases vs@.len() - i,
    {
        let ghost y = ys[i as int];
        let ghost done = enum_value_descriptor_proto_seq_parts(num@, ys.take(i as int));
        let ghost cur = entry_parts(num@, enum_value_descriptor_proto_parts(y));
        let ghost rest = enum_value_descriptor_proto_seq_parts(num@, ys.skip(i + 1));
        proof {
            lemma_enum_value_descriptor_proto_seq_parts_step(num@, ys, i as int);
        }
        let len = vs[i].calculate_size();
        let r = add_entry_size(b, num, len, Ghost(enum_value_descriptor_proto_parts(y)));
        proof {
            lemma_size_chain(builder@ as int, done, cur, Some(b), r);
        }
        b = match r {
            Some(b1) => b1,
            None => {
                proof {
                    lemma_size_prefix(builder@ as int, done + cur, rest);
                }
                return None;
            },
        };
        i = i + 1;
    }
    proof {
        assert(ys.take(i as int) =~= ys);
    }
    Some(b)
}

/// Writes the `EnumValueDescriptorProto` values of a repeated field with field number `num`: for each, its tag,
/// its length and its fields.
fn write_enum_value_descriptor_proto_values(vs: &Vec<EnumValueDescriptorProto>, output: &mut CodedWriter, num: FieldNumber) -> (r: WriteResult)
    ensures
        (final(output).written(), r) == parts_written(old(output).written(), old(output).capacity(), enum_value_descriptor_proto_seq_parts(num@, enum_value_descriptor_proto_seq_view(vs@))),
        final(output).capacity() == old(output).capacity(),
        (*final(final(output).target()))@ == (*final(old(output).target()))@,
{
    let ghost ys = enum_value_descriptor_proto_seq_view(vs@);
    let ghost start = output.written();
    let ghost cap = output.capacity();
    proof {
        lemma_enum_value_descriptor_proto_seq_view(vs@);
        assert(ys.take(0) =~= Seq::<EnumValueDescriptorProtoView>::empty());
    }
    let mut i: usize = 0;
    while i < vs.len()
        invariant
            ys == enum_value_descriptor_proto_seq_view(vs@),
            ys.len() == vs@.len(),
            forall|k: int| 0 <= k < vs@.len() ==> #[trigger] ys[k] == enum_value_descriptor_proto_view(vs@[k]),
            i <= vs@.len(),
            start == old(output).written(),
            cap == old(output).capacity(),
            output.capacity() == cap,
            (*final(output.target()))@ == (*final(old(output).target()))@,
            parts_written(start, cap, enum_value_descriptor_proto_seq_parts(num@, ys.take(i as int))).0 == output.written(),
            parts_written(start, cap, enum_value_descriptor_proto_seq_parts(num@, ys.take(i as int))).1 is Ok,
        decreases vs@.len() - i,
    {
        let ghost y = ys[i as int];
        let ghost done = enum_value_descriptor_proto_seq_parts(num@, ys.take(i as int));
        let ghost head = entry_head(num@, enum_value_descriptor_proto_parts(y));
        let ghost cur = head + enum_value_descriptor_proto_parts(y);
        let ghost rest = enum_value_descriptor_proto_seq_parts(num@, ys.skip(i + 1));
        let ghost w0 = output.written();
        proof {
            lemma_enum_value_descriptor_proto_seq_parts_step(num@, ys, i as int);
            lemma_parts_written_append(start, cap, done, cur);
            lemma_parts_written_append(start, cap, done + cur, rest);
            lemma_parts_written_append(w0, cap, head, enum_value_descriptor_proto_parts(y));
            reveal_with_fuel(parts_written, 3);
            assert(head.drop_first().drop_first() =~= Seq::<(bool, Seq<u8>)>::empty());
        }
        match output.write_tag(Tag::new(num, WireType::LengthDelimited)) {
            Ok(()) => {},
            Err(e) => return Err(e),
        }
        let len = match vs[i].calculate_size() {
            Some(len) => len,
            None => return Err(WriteError::ValueTooLarge),
        };
        match output.write_length(len) {
            Ok(()) => {},
            Err(e) => return Err(e),
        }
        match vs[i].write_to(output) {
            Ok(()) => {},
            Err(e) => return Err(e),
        }
        i = i + 1;
    }
    proof {
        assert(ys.take(i as int) =~= ys);
        lemma_ok_unit(parts_written(start, cap, enum_value_descriptor_proto_seq_parts(num@, ys)).1);
    }
    Ok(())
}

/// Reads a `EnumValueDescriptorProto` from the reader as a length delimited value, merging it into `this`, one
/// level deeper.
fn merge_enum_value_descriptor_proto_delimited(this: &mut EnumValueDescriptorProto, input: &mut CodedReader) -> (r: ReadResult<()>)
    ensures
        match length_delimited_read(old(input).available()) {
            Err(e) => r == Err::<(), ReadError>(e) && same_config(*old(input), *final(input)),
            Ok((m, b)) => if old(input).depth() >= old(input).recursion_limit() {
                r == Err::<(), ReadError>(ReadError::RecursionLimitExceeded) && same_config(*old(input), *final(input))
            } else {
                match enum_value_descriptor_proto_merged(old(this)@, b, old(input).depth() + 1, old(input).recursion_limit(), skips(*old(input)), old(input).end_group_view()) {
                    Ok(y) => r is Ok && final(this)@ == y && final(input).position() == old(input).position() + m
                        && same_state(*old(input), *final(input)),
                    Err(e) => r == Err::<(), ReadError>(e) && same_config(*old(input), *final(input)),
                }
            },
        },
{
    let rem0 = input.remaining();
    let ghost s = input.available();
    let ghost start = *input;
    let length = match input.read_length() {
        Ok(l) => l,
        Err(e) => return Err(e),
    };
    let rem1 = input.remaining();
    let ghost n0 = input.position() - start.position();
    proof {
        lemma_varint_read_len(s);
        assert(input.available() =~= s.skip(n0));
    }
    let previous = match input.push_length(length) {
        Ok(p) => p,
        Err(e) => return Err(e),
    };
    let rem2 = input.remaining();
    let ghost b = s.subrange(n0, n0 + length@);
    proof {
        assert(input.available() =~= b);
        assert(length_delimited_read(s) == Ok::<(int, Seq<u8>), ReadError>((n0 + length@, b)));
    }
    let ghost pushed = *input;
    match input.increment_recursion_count() {
        Ok(()) => {},
        Err(e) => {
            input.pop_length(previous);
            return Err(e);
        },
    }
    let r = this.merge_from(input);
    let rem3 = input.remaining();
    input.decrement_recursion_count();
    input.pop_length(previous);
    r
}

impl EnumValueDescriptorProto {
    /// Gets the unknown fields of the message.
    pub fn unknown_fields(&self) -> (r: &UnknownFieldSet)
        ensures
            r@ == self@.unknown_fields,
    {
        &self.unknown_fields
    }

    /// Gets the unknown fields of the message for changing them.
    pub fn unknown_fields_mut(&mut self) -> (r: &mut UnknownFieldSet)
        ensures
            (*r)@ == old(self)@.unknown_fields,
            final(self)@ == (EnumValueDescriptorProtoView { unknown_fields: (*final(r))@, ..old(self)@ }),
    {
        &mut self.unknown_fields
    }

    /// Returns whether the message is initialized: whether all its required fields are set.
    pub fn is_initialized(&self) -> (r: bool)
        ensures
            r,
    {
        true
    }

    /// Calculates the size of the message as it is written: `None` if a part cannot be
    /// written or the size does not fit in a length.
    #[verifier::spinoff_prover]
    pub fn calculate_size(&self) -> (r: Option<Length>)
        ensures
            opt_length(r) == parts_size(enum_value_descriptor_proto_parts(self@)),
    {
        let ghost v = self@;
        let ghost all = enum_value_descriptor_proto_parts(v);
        let b0 = LengthBuilder::new();
        let ghost d0 = Seq::<(bool, Seq<u8>)>::empty();
        proof {
            reveal(enum_value_descriptor_proto_parts);
            assert(all =~= d0 + all);
        }
        let ghost p1 = opt_field_parts::<raw::String>(1u32, v.name);
        let ghost rest1 = opt_field_parts::<raw::Int32>(2u32, v.number) + (enum_value_options_opt_parts(3u32, v.options) + (set_parts(v.unknown_fields)));
        proof {
            assert(self@.name == opt_inner_view::<raw::String>(self.name));
            assert(all == d0 + (p1 + rest1));
            assert(d0 + (p1 + rest1) =~= d0 + p1 + rest1);
        }
        let r1 = add_opt_field::<raw::String>(b0, FieldNumber::new_unchecked(1), &self.name);
        proof {
            lemma_size_chain(0, d0, p1, Some(b0), r1);
            if r1 is None {
                lemma_size_chain(0, d0 + p1, rest1, r1, r1);
            }
        }
        let b1 = match r1 {
            Some(b) => b,
            None => return None,
        };
        let ghost d1 = d0 + p1;
        let ghost p2 = opt_field_parts::<raw::Int32>(2u32, v.number);
        let ghost rest2 = enum_value_options_opt_parts(3u32, v.options) + (set_parts(v.unknown_fields));
        proof {
            assert(self@.number == opt_inner_view::<raw::Int32>(self.number));
            assert(all == d1 + (p2 + rest2));
            assert(d1 + (p2 + rest2) =~= d1 + p2 + rest2);
        }
        let r2 = add_opt_field::<raw::Int32>(b1, FieldNumber::new_unchecked(2), &self.number);
        proof {
            lemma_size_chain(0, d1, p2, Some(b1), r2);
            if r2 is None {
                lemma_size_chain(0, d1 + p2, rest2, r2, r2);
            }
        }
        let b2 = match r2 {
            Some(b) => b,
            None => return None,
        };
        let ghost d2 = d1 + p2;
        let ghost p3 = enum_value_options_opt_parts(3u32, v.options);
        let ghost rest3 = set_parts(v.unknown_fields);
        proof {
            assert(self@.options == opt_view(self.options));
            assert(all == d2 + (p3 + rest3));
            assert(d2 + (p3 + rest3) =~= d2 + p3 + rest3);
        }
        let r3 = enum_value_options_opt_size(&self.options, b2, FieldNumber::new_unchecked(3));
        proof {
            lemma_size_chain(0, d2, p3, Some(b2), r3);
            if r3 is None {
                lemma_size_chain(0, d2 + p3, rest3, r3, r3);
            }
        }
        let b3 = match r3 {
            Some(b) => b,
            None => return None,
        };
        let ghost d3 = d2 + p3;
        let ghost p4 = set_parts(v.unknown_fields);
        let ghost rest4 = Seq::<(bool, Seq<u8>)>::empty();
        proof {
            assert(all == d3 + p4);
            assert(p4 + rest4 =~= p4);
            assert(d3 + (p4 + rest4) =~= d3 + p4 + rest4);
        }
        let r4 = self.unknown_fields.calculate_size(b3);
        proof {
            lemma_size_chain(0, d3, p4, Some(b3), r4);
            if r4 is None {
                lemma_size_chain(0, d3 + p4, rest4, r4, r4);
            }
        }
        let b4 = match r4 {
            Some(b) => b,
            None => return None,
        };
        let ghost d4 = d3 + p4;
        Some(b4.build())
    }

    /// Writes the message to the writer: its fields that are set, in field number order, then
    /// its unknown fields.
    #[verifier::spinoff_prover]
    pub fn write_to(&self, output: &mut CodedWriter) -> (r: WriteResult)
        ensures
            (final(output).written(), r) == parts_written(old(output).written(), old(output).capacity(), enum_value_descriptor_proto_parts(self@)),
            final(output).capacity() == old(output).capacity(),
            (*final(final(output).target()))@ == (*final(old(output).target()))@,
    {
        let ghost v = self@;
        let ghost all = enum_value_descriptor_proto_parts(v);
        let ghost start = output.written();
        let ghost cap = output.capacity();
        let ghost d0 = Seq::<(bool, Seq<u8>)>::empty();
        proof {
            reveal(enum_value_descriptor_proto_parts);
            assert(all =~= d0 + all);
        }
        let ghost p1 = opt_field_parts::<raw::String>(1u32, v.name);
        let ghost rest1 = opt_field_parts::<raw::Int32>(2u32, v.number) + (enum_value_options_opt_parts(3u32, v.options) + (set_parts(v.unknown_fields)));
        proof {
            assert(self@.name == opt_inner_view::<raw::String>(self.name));
            assert(all == d0 + (p1 + rest1));
            assert(d0 + (p1 + rest1) =~= d0 + p1 + rest1);
            lemma_parts_written_append(start, cap, d0, p1);
            lemma_parts_written_append(start, cap, d0 + p1, rest1);
        }
        match write_opt_field::<raw::String>(output, FieldNumber::new_unchecked(1), &self.name) {
            Ok(()) => {},
            Err(e) => return Err(e),
        }
        let ghost d1 = d0 + p1;
        let ghost p2 = opt_field_parts::<raw::Int32>(2u32, v.number);
        let ghost rest2 = enum_value_options_opt_parts(3u32, v.options) + (set_parts(v.unknown_fields));
        proof {
            assert(self@.number == opt_inner_view::<raw::Int32>(self.number));
            assert(all == d1 + (p2 + rest2));
            assert(d1 + (p2 + rest2) =~= d1 + p2 + rest2);
            lemma_parts_written_append(start, cap, d1, p2);
            lemma_parts_written_append(start, cap, d1 + p2, rest2);
        }
        match write_opt_field::<raw::Int32>(output, FieldNumber::new_unchecked(2), &self.number) {
            Ok(()) => {},
            Err(e) => return Err(e),
        }
        let ghost d2 = d1 + p2;
        let ghost p3 = enum_value_options_opt_parts(3u32, v.options);
        let ghost rest3 = set_parts(v.unknown_fields);
        proof {
            assert(self@.options == opt_view(self.options));
            assert(all == d2 + (p3 + rest3));
            assert(d2 + (p3 + rest3) =~= d2 + p3 + rest3);
            lemma_parts_written_append(start, cap, d2, p3);
            lemma_parts_written_append(start, cap, d2 + p3, rest3);
        }
        match write_enum_value_options_opt(&self.options, output, FieldNumber::new_unchecked(3)) {
            Ok(()) => {},
            Err(e) => return Err(e),
        }
        let ghost d3 = d2 + p3;
        let ghost p4 = set_parts(v.unknown_fields);
        let ghost rest4 = Seq::<(bool, Seq<u8>)>::empty();
        proof {
            assert(all == d3 + p4);
            assert(p4 + rest4 =~= p4);
            assert(d3 + (p4 + rest4) =~= d3 + p4 + rest4);
            lemma_parts_written_append(start, cap, d3, p4);
            lemma_parts_written_append(start, cap, d3 + p4, rest4);
        }
        match self.unknown_fields.write_to(output) {
            Ok(()) => {},
            Err(e) => return Err(e),
        }
        let ghost d4 = d3 + p4;
        proof {
            assert(all =~= d4 + Seq::<(bool, Seq<u8>)>::empty());
            assert(all == d4);
            lemma_ok_unit(parts_written(start, cap, all).1);
        }
        Ok(())
    }

    /// Reads the value of the field whose tag value `t` was just read into the message.
    #[verifier::spinoff_prover]
    fn merge_field(&mut self, t: u32, input: &mut CodedReader) -> (r: ReadResult<()>)
        ensures
            match enum_value_descriptor_proto_field_read(old(self)@, t, old(input).available(), old(input).depth(), old(input).recursion_limit(), skips(*old(input)), old(input).end_group_view()) {
                Ok((m, v2)) => r is Ok && final(self)@ == v2 && m >= 0 && final(input).position()
                    == old(input).position() + m && same_state(*old(input), *final(input)),
                Err(e) => r == Err::<(), ReadError>(e) && same_config(*old(input), *final(input)),
            },
    {
        let rem0 = input.remaining();
        let ghost rest = input.available();
        if t == 10u32 {
            proof {
                <raw::String as Value>::lemma_decoding_len(rest);
            }
            input.set_last_tag(Some(Tag::new(FieldNumber::new_unchecked(1), WireType::LengthDelimited)));
            match <raw::String as Value>::merge_from(self.name.get_or_insert(std::string::String::new()), input) {
                Ok(()) => {},
                Err(e) => return Err(e),
            }
        } else if t == 16u32 {
            proof {
                <raw::Int32 as Value>::lemma_decoding_len(rest);
            }
            input.set_last_tag(Some(Tag::new(FieldNumber::new_unchecked(2), WireType::Varint)));
            match <raw::Int32 as Value>::merge_from(self.number.get_or_insert(0i32), input) {
                Ok(()) => {},
                Err(e) => return Err(e),
            }
        } else if t == 26u32 {
            proof {
                lemma_length_delimited_read_len(rest);
            }
            input.set_last_tag(Some(Tag::new(FieldNumber::new_unchecked(3), WireType::LengthDelimited)));
            match &mut self.options {
                Some(y) => match merge_enum_value_options_delimited(y, input) {
                    Ok(()) => {},
                    Err(e) => return Err(e),
                },
                None => {
                    let mut y = EnumValueOptions::default();
                    match merge_enum_value_options_delimited(&mut y, input) {
                        Ok(()) => {},
                        Err(e) => return Err(e),
                    }
                    self.options = Some(y);
                },
            }
        } else {
            let tag = match Tag::try_from(t) {
                Ok(tag) => tag,
                Err(_) => return Err(ReadError::InvalidTag(t)),
            };
            input.set_last_tag(Some(tag));
            match self.unknown_fields.try_add_field_from(input) {
                Ok(TryRead::Consumed) => {},
                Ok(TryRead::Yielded) => match input.skip() {
                    Ok(()) => {},
                    Err(e) => return Err(e),
                },
                Err(e) => return Err(e),
            }
        }
        let rem1 = input.remaining();
        Ok(())
    }

    /// Merges the message with fields read from the reader, up to its limit. Scalar fields
    /// read replace those set, message fields are merged, repeated fields are added to,
    /// and unknown fields are stored or skipped as the reader says. On an error the message
    /// may hold some of the fields read before it.
    #[verifier::spinoff_prover]
    #[verifier::rlimit(50)]
    pub fn merge_from(&mut self, input: &mut CodedReader) -> (r: ReadResult<()>)
        ensures
            merge_outcome(enum_value_descriptor_proto_merged(old(self)@, old(input).available(), old(input).depth(), old(input).recursion_limit(), skips(*old(input)), old(input).end_group_view()), final(self)@, *old(input), *final(input), r),
    {
        let rem0 = input.remaining();
        let ghost start = *input;
        let ghost total = enum_value_descriptor_proto_merged(self@, input.available(), input.depth(), input.recursion_limit(), skips(*input), input.end_group_view());
        loop
            invariant
                start == *old(input),
                same_state(start, *input),
                0 <= start.position() <= input.position(),
                input.limit_end() <= input.input().len(),
                total == enum_value_descriptor_proto_merged(old(self)@, start.available(), start.depth(), start.recursion_limit(), skips(start), start.end_group_view()),
                total == enum_value_descriptor_proto_merged(self@, input.available(), start.depth(), start.recursion_limit(), skips(start), start.end_group_view()),
            decreases input.available().len(),
        {
            let ghost s = input.available();
            let ghost before = *input;
            let ghost v = self@;
            let t = match input.read_field() {
                Ok(Some(t)) => t,
                Ok(None) => return Ok(()),
                Err(e) => return Err(e),
            };
            let rem1 = input.remaining();
            let ghost n = input.position() - before.position();
            proof {
                lemma_varint_read_len(s);
                assert(input.available() =~= s.skip(n));
            }
            let ghost mid = *input;
            match self.merge_field(t, input) {
                Ok(()) => {},
                Err(e) => return Err(e),
            }
            let rem2 = input.remaining();
            proof {
                let m = input.position() - mid.position();
                assert(input.available() =~= s.skip(n + m));
            }
        }
    }
}

impl crate::Message for EnumValueDescriptorProto {
    open spec fn merged(v: EnumValueDescriptorProtoView, s: Seq<u8>, depth: nat, limit: nat, skip: bool, eg: Option<Tag>) -> ReadResult<EnumValueDescriptorProtoView> {
        enum_value_descriptor_proto_merged(v, s, depth, limit, skip, eg)
    }

    open spec fn parts(v: EnumValueDescriptorProtoView) -> Seq<(bool, Seq<u8>)> {
        enum_value_descriptor_proto_parts(v)
    }

    open spec fn initialized(v: EnumValueDescriptorProtoView) -> bool {
        true
    }

    open spec fn unknown_fields_of(v: EnumValueDescriptorProtoView) -> Seq<(u32, Seq<FieldValue>)> {
        v.unknown_fields
    }

    open spec fn with_unknown_fields(v: EnumValueDescriptorProtoView, u: Seq<(u32, Seq<FieldValue>)>) -> EnumValueDescriptorProtoView {
        EnumValueDescriptorProtoView { unknown_fields: u, ..v }
    }

    fn merge_from(&mut self, input: &mut CodedReader) -> (r: ReadResult<()>) {
        EnumValueDescriptorProto::merge_from(self, input)
    }

    fn calculate_size(&self) -> (r: Option<Length>) {
        EnumValueDescriptorProto::calculate_size(self)
    }

    fn write_to(&self, output: &mut CodedWriter) -> (r: WriteResult) {
        EnumValueDescriptorProto::write_to(self, output)
    }

    fn is_initialized(&self) -> (r: bool) {
        EnumValueDescriptorProto::is_initialized(self)
    }

    fn unknown_fields(&self) -> (r: &UnknownFieldSet) {
        EnumValueDescriptorProto::unknown_fields(self)
    }

    fn unknown_fields_mut(&mut self) -> (r: &mut UnknownFieldSet) {
        EnumValueDescriptorProto::unknown_fields_mut(self)
    }
}

impl DebugMessage for EnumValueDescriptorProto {
    open spec fn spec_full_name() -> Seq<char> {
        "google.protobuf.EnumValueDescriptorProto"@
    }

    open spec fn spec_name() -> Seq<char> {
        "EnumValueDescriptorProto"@
    }

    fn full_name() -> (r: &'static str) {
        "google.protobuf.EnumValueDescriptorProto"
    }

    fn name() -> (r: &'static str) {
        "EnumValueDescriptorProto"
    }
}

/// Whether `t` is the tag of a field a `EnumValueDescriptorProto` reads.
pub open spec fn enum_value_descriptor_proto_known_tag(t: u32) -> bool {
    t == 10u32 || t == 16u32 || t == 26u32
}

/// Whether a `EnumValueDescriptorProto` is read back as it is written, at nesting depth `depth` of a reader with
/// recursion limit `limit`: its messages are read back as written one level deeper, within
/// the limit; and its unknown fields are read back as written, none with the tag of one of
/// its fields.
pub open spec fn enum_value_descriptor_proto_roundtrips(v: EnumValueDescriptorProtoView, depth: nat, limit: nat) -> bool
{
    &&& (v.options matches Some(y) ==> depth < limit && enum_value_options_roundtrips(y, depth + 1, limit))
    &&& set_readable(v.unknown_fields)
    &&& forall|k: int| 0 <= k < set_pairs(v.unknown_fields).len() ==> !enum_value_descriptor_proto_known_tag(tag_value(
        #[trigger] set_pairs(v.unknown_fields)[k].0,
        field_value_wire_type(set_pairs(v.unknown_fields)[k].1),
    ))
}

/// Reading a `EnumValueDescriptorProto` field whose tag is read from the front of `s` and whose value is read after
/// it continues with the rest of `s`.
proof fn lemma_enum_value_descriptor_proto_step(v: EnumValueDescriptorProtoView, s: Seq<u8>, k: int, t: u32, m: int, v2: EnumValueDescriptorProtoView, depth: nat, limit: nat)
    requires
        varint_read(s) == Ok::<(int, u64), ReadError>((k, t as u64)),
        1 <= k <= s.len(),
        enum_value_descriptor_proto_field_read(v, t, s.skip(k), depth, limit, false, None) == Ok::<(int, EnumValueDescriptorProtoView), ReadError>((m, v2)),
        0 <= m,
        k + m <= s.len(),
    ensures
        enum_value_descriptor_proto_merged(v, s, depth, limit, false, None) == enum_value_descriptor_proto_merged(v2, s.skip(k + m), depth, limit, false, None),
{
    assert((t as u64) as u32 == t);
}

/// Reading the field `name` of a `EnumValueDescriptorProto` written from `o` sets it to `o`, whatever it held; nothing
/// is written, and nothing changes, for `None`.
proof fn lemma_enum_value_descriptor_proto_read_name(d: EnumValueDescriptorProtoView, o: Option<Seq<char>>, rest: Seq<u8>, depth: nat, limit: nat)
    requires
        parts_encodable(opt_field_parts::<raw::String>(1u32, o)),
    ensures
        enum_value_descriptor_proto_merged(d, parts_bytes(opt_field_parts::<raw::String>(1u32, o)) + rest, depth, limit, false, None) == enum_value_descriptor_proto_merged(if o is Some { EnumValueDescriptorProtoView { name: o, ..d } } else { d }, rest, depth, limit, false, None),
{
    match o {
        None => {
            assert(parts_bytes(opt_field_parts::<raw::String>(1u32, o)) + rest =~= rest);
        },
        Some(x) => {
            let p = field_parts::<raw::String>(1u32, x);
            assert(p[1].0);
            let s = parts_bytes(p) + rest;
            lemma_field_bytes_read::<raw::String>(1u32, x, rest);
            lemma_tag_value(1u32, WireType::LengthDelimited);
            let hl = parts_bytes(p).len() as int;
            let k = varint_len(10u64) as int;
            let v2 = EnumValueDescriptorProtoView { name: Some(x), ..d };
            lemma_enum_value_descriptor_proto_step(d, s, k, 10u32, hl - k, v2, depth, limit);
        },
    }
}

/// Reading the field `number` of a `EnumValueDescriptorProto` written from `o` sets it to `o`, whatever it held; nothing
/// is written, and nothing changes, for `None`.
proof fn lemma_enum_value_descriptor_proto_read_number(d: EnumValueDescriptorProtoView, o: Option<i32>, rest: Seq<u8>, depth: nat, limit: nat)
    requires
        parts_encodable(opt_field_parts::<raw::Int32>(2u32, o)),
    ensures
        enum_value_descriptor_proto_merged(d, parts_bytes(opt_field_parts::<raw::Int32>(2u32, o)) + rest, depth, limit, false, None) == enum_value_descriptor_proto_merged(if o is Some { EnumValueDescriptorProtoView { number: o, ..d } } else { d }, rest, depth, limit, false, None),
{
    match o {
        None => {
            assert(parts_bytes(opt_field_parts::<raw::Int32>(2u32, o)) + rest =~= rest);
        },
        Some(x) => {
            let p = field_parts::<raw::Int32>(2u32, x);
            assert(p[1].0);
            let s = parts_bytes(p) + rest;
            lemma_field_bytes_read::<raw::Int32>(2u32, x, rest);
            lemma_tag_value(2u32, WireType::Varint);
            let hl = parts_bytes(p).len() as int;
            let k = varint_len(16u64) as int;
            let v2 = EnumValueDescriptorProtoView { number: Some(x), ..d };
            lemma_enum_value_descriptor_proto_step(d, s, k, 16u32, hl - k, v2, depth, limit);
        },
    }
}

/// Reading the field `options` of a `EnumValueDescriptorProto` written from `o`, where the message does not hold it,
/// sets it to `o`; nothing is written, and nothing changes, for `None`.
#[verifier::rlimit(40)]
proof fn lemma_enum_value_descriptor_proto_read_options(d: EnumValueDescriptorProtoView, o: Option<EnumValueOptionsView>, rest: Seq<u8>, depth: nat, limit: nat)
    requires
        o is Some ==> d.options is None,
        parts_encodable(enum_value_options_opt_parts(3u32, o)),
        o matches Some(y) ==> depth < limit && enum_value_options_roundtrips(y, depth + 1, limit),
    ensures
        enum_value_descriptor_proto_merged(d, parts_bytes(enum_value_options_opt_parts(3u32, o)) + rest, depth, limit, false, None) == enum_value_descriptor_proto_merged(if o is Some { EnumValueDescriptorProtoView { options: o, ..d } } else { d }, rest, depth, limit, false, None),
{
    match o {
        None => {
            assert(parts_bytes(enum_value_options_opt_parts(3u32, o)) + rest =~= rest);
        },
        Some(y) => {
            let ep = entry_parts(3u32, enum_value_options_parts(y));
            assert(ep[1].0);
            let s = parts_bytes(ep) + rest;
            lemma_entry_bytes_read(3u32, enum_value_options_parts(y), rest);
            lemma_tag_value(3u32, WireType::LengthDelimited);
            lemma_parts_encodable_two(entry_head(3u32, enum_value_options_parts(y)), enum_value_options_parts(y));
            lemma_enum_value_options_roundtrip(y, depth + 1, limit);
            let hl = parts_bytes(ep).len() as int;
            let k = varint_len(26u64) as int;
            let v2 = EnumValueDescriptorProtoView { options: Some(y), ..d };
            lemma_enum_value_descriptor_proto_step(d, s, k, 26u32, hl - k, v2, depth, limit);
            assert(s.skip(hl) == rest);
        },
    }
}

/// Reading the field `options` of a `EnumValueDescriptorProto` merges what is read into the value the message already
/// holds there (or into a default value, where it holds none): the field read from the bytes
/// written from `y` becomes the existing value with the bytes of `y` merged into it, and the
/// rest is read into the message so changed. Past the recursion limit the read is refused.
#[verifier::rlimit(40)]
pub proof fn lemma_enum_value_descriptor_proto_merge_options(d: EnumValueDescriptorProtoView, y: EnumValueOptionsView, rest: Seq<u8>, depth: nat, limit: nat)
    requires
        parts_encodable(enum_value_options_opt_parts(3u32, Some(y))),
    ensures
        enum_value_descriptor_proto_merged(d, parts_bytes(enum_value_options_opt_parts(3u32, Some(y))) + rest, depth, limit, false, None) == if depth >= limit {
            Err::<EnumValueDescriptorProtoView, ReadError>(ReadError::RecursionLimitExceeded)
        } else {
            match enum_value_options_merged(match d.options { Some(o) => o, None => enum_value_options_default() }, parts_bytes(enum_value_options_parts(y)), depth + 1, limit, false, None) {
                Ok(z) => enum_value_descriptor_proto_merged(EnumValueDescriptorProtoView { options: Some(z), ..d }, rest, depth, limit, false, None),
                Err(e) => Err(e),
            }
        },
{
    let ep = entry_parts(3u32, enum_value_options_parts(y));
    assert(enum_value_options_opt_parts(3u32, Some(y)) == ep);
    assert(ep[1].0);
    let s = parts_bytes(ep) + rest;
    lemma_entry_bytes_read(3u32, enum_value_options_parts(y), rest);
    lemma_tag_value(3u32, WireType::LengthDelimited);
    let hl = parts_bytes(ep).len() as int;
    let k = varint_len(26u64) as int;
    assert((26u64 as u64) as u32 == 26u32);
    if depth < limit {
        match enum_value_options_merged(match d.options { Some(o) => o, None => enum_value_options_default() }, parts_bytes(enum_value_options_parts(y)), depth + 1, limit, false, None) {
            Ok(z) => {
                let v2 = EnumValueDescriptorProtoView { options: Some(z), ..d };
                lemma_enum_value_descriptor_proto_step(d, s, k, 26u32, hl - k, v2, depth, limit);
                assert(s.skip(hl) == rest);
            },
            Err(e) => {},
        }
    }
}

/// Merging the bytes written for the field `options` of a `EnumValueDescriptorProto` from `y` into `d` merges `y` into
/// the value `d` holds there (or into a default value, where it holds none), as merging
/// messages does, where `y` is read back as written and the existing value holds none of the
/// message fields `y` holds.
pub proof fn lemma_enum_value_descriptor_proto_merge_options_written(d: EnumValueDescriptorProtoView, y: EnumValueOptionsView, rest: Seq<u8>, depth: nat, limit: nat)
    requires
        parts_encodable(enum_value_options_opt_parts(3u32, Some(y))),
        depth < limit,
        enum_value_options_roundtrips(y, depth + 1, limit),
    ensures
        enum_value_descriptor_proto_merged(d, parts_bytes(enum_value_options_opt_parts(3u32, Some(y))) + rest, depth, limit, false, None) == enum_value_descriptor_proto_merged(EnumValueDescriptorProtoView { options: Some(enum_value_options_merge_view(match d.options { Some(o) => o, None => enum_value_options_default() }, y)), ..d }, rest, depth, limit, false, None),
{
    lemma_enum_value_descriptor_proto_merge_options(d, y, rest, depth, limit);
    lemma_parts_encodable_two(entry_head(3u32, enum_value_options_parts(y)), enum_value_options_parts(y));
    assert(enum_value_options_opt_parts(3u32, Some(y)) == entry_parts(3u32, enum_value_options_parts(y)));
    lemma_enum_value_options_merge_written(match d.options { Some(o) => o, None => enum_value_options_default() }, y, depth + 1, limit);
}

/// Reading unknown field values written one after the other into a `EnumValueDescriptorProto`, none with the tag
/// of one of its fields, adds them to its unknown fields.
proof fn lemma_enum_value_descriptor_proto_read_unknown(v: EnumValueDescriptorProtoView, ps: Seq<(u32, FieldValue)>, rest: Seq<u8>, depth: nat, limit: nat)
    requires
        forall|k: int| 0 <= k < ps.len() ==> value_readable(#[trigger] ps[k].0, ps[k].1) && !enum_value_descriptor_proto_known_tag(
            tag_value(ps[k].0, field_value_wire_type(ps[k].1)),
        ),
    ensures
        enum_value_descriptor_proto_merged(v, parts_bytes(pairs_parts(ps)) + rest, depth, limit, false, None) == enum_value_descriptor_proto_merged(
            EnumValueDescriptorProtoView { unknown_fields: push_pairs(v.unknown_fields, ps), ..v },
            rest,
            depth, limit, false, None,
        ),
    decreases ps.len(),
{
    if ps.len() == 0 {
        assert(parts_bytes(pairs_parts(ps)) + rest =~= rest);
    } else {
        let n = ps[0].0;
        let fv = ps[0].1;
        let tail = ps.drop_first();
        assert forall|k: int| 0 <= k < tail.len() implies value_readable(#[trigger] tail[k].0, tail[k].1) && !enum_value_descriptor_proto_known_tag(
            tag_value(tail[k].0, field_value_wire_type(tail[k].1)),
        ) by {
            assert(tail[k] == ps[k + 1]);
        }
        assert(value_readable(ps[0].0, ps[0].1));
        lemma_parts_bytes_append(field_value_parts(n, fv), pairs_parts(tail));
        let after = parts_bytes(pairs_parts(tail)) + rest;
        let s = parts_bytes(pairs_parts(ps)) + rest;
        assert(s =~= parts_bytes(field_value_parts(n, fv)) + after);
        lemma_read_value_bytes(n, fv, after);
        let t = tag_value(n, field_value_wire_type(fv));
        let hl = parts_bytes(field_value_parts(n, fv)).len() as int;
        let k = varint_len(t as u64) as int;
        let v2 = EnumValueDescriptorProtoView { unknown_fields: view_push(v.unknown_fields, n, fv), ..v };
        lemma_enum_value_descriptor_proto_step(v, s, k, t, hl - k, v2, depth, limit);
        lemma_enum_value_descriptor_proto_read_unknown(v2, tail, rest, depth, limit);
    }
}

/// The writability of the parts of a `EnumValueDescriptorProto` is that of each field's parts.
proof fn lemma_enum_value_descriptor_proto_parts_encodable(v: EnumValueDescriptorProtoView)
    ensures
        parts_encodable(enum_value_descriptor_proto_parts(v)) == (parts_encodable(opt_field_parts::<raw::String>(1u32, v.name)) && parts_encodable(opt_field_parts::<raw::Int32>(2u32, v.number)) && parts_encodable(enum_value_options_opt_parts(3u32, v.options)) && parts_encodable(set_parts(v.unknown_fields))),
{
    reveal(enum_value_descriptor_proto_parts);
    let p0 = opt_field_parts::<raw::String>(1u32, v.name);
    let p1 = opt_field_parts::<raw::Int32>(2u32, v.number);
    let p2 = enum_value_options_opt_parts(3u32, v.options);
    let p3 = set_parts(v.unknown_fields);
    let q3 = p3;
    let q2 = p2 + q3;
    lemma_parts_encodable_two(p2, q3);
    let q1 = p1 + q2;
    lemma_parts_encodable_two(p1, q2);
    let q0 = p0 + q1;
    lemma_parts_encodable_two(p0, q1);
    assert(enum_value_descriptor_proto_parts(v) == q0);
}

/// The bytes of the parts of a `EnumValueDescriptorProto` are those of each field's parts, one after the other.
proof fn lemma_enum_value_descriptor_proto_parts_bytes(v: EnumValueDescriptorProtoView)
    ensures
        parts_bytes(enum_value_descriptor_proto_parts(v)) == parts_bytes(opt_field_parts::<raw::String>(1u32, v.name)) + (parts_bytes(opt_field_parts::<raw::Int32>(2u32, v.number)) + (parts_bytes(enum_value_options_opt_parts(3u32, v.options)) + parts_bytes(set_parts(v.unknown_fields)))),
{
    reveal(enum_value_descriptor_proto_parts);
    let p0 = opt_field_parts::<raw::String>(1u32, v.name);
    let p1 = opt_field_parts::<raw::Int32>(2u32, v.number);
    let p2 = enum_value_options_opt_parts(3u32, v.options);
    let p3 = set_parts(v.unknown_fields);
    let q3 = p3;
    let q2 = p2 + q3;
    lemma_parts_bytes_append(p2, q3);
    let q1 = p1 + q2;
    lemma_parts_bytes_append(p1, q2);
    let q0 = p0 + q1;
    lemma_parts_bytes_append(p0, q1);
    assert(enum_value_descriptor_proto_parts(v) == q0);
}

/// The message a `EnumValueDescriptorProto` `d` becomes when `v` is merged into it: each field `v` holds once
/// replaces the one `d` holds, the values of each repeated field of `v` follow those of `d`,
/// and the unknown fields of `v` are added to those of `d`, field number by field number.
pub open spec fn enum_value_descriptor_proto_merge_view(d: EnumValueDescriptorProtoView, v: EnumValueDescriptorProtoView) -> EnumValueDescriptorProtoView {
    EnumValueDescriptorProtoView { name: newer_or(v.name, d.name), number: newer_or(v.number, d.number), options: newer_or(v.options, d.options), unknown_fields: view_merge(d.unknown_fields, v.unknown_fields) }
}

/// Reading the bytes of the parts of a `EnumValueDescriptorProto` `v`, field by field, into `d` merges `v` into `d`.
#[verifier::spinoff_prover]
#[verifier::rlimit(60)]
proof fn lemma_enum_value_descriptor_proto_merge_all(d: EnumValueDescriptorProtoView, v: EnumValueDescriptorProtoView, depth: nat, limit: nat)
    requires
        parts_encodable(opt_field_parts::<raw::String>(1u32, v.name)),
        parts_encodable(opt_field_parts::<raw::Int32>(2u32, v.number)),
        parts_encodable(enum_value_options_opt_parts(3u32, v.options)),
        enum_value_descriptor_proto_roundtrips(v, depth, limit),
        v.options is Some ==> d.options is None,
        parts_bytes(enum_value_descriptor_proto_parts(v)) == parts_bytes(opt_field_parts::<raw::String>(1u32, v.name)) + (parts_bytes(opt_field_parts::<raw::Int32>(2u32, v.number)) + (parts_bytes(enum_value_options_opt_parts(3u32, v.options)) + parts_bytes(set_parts(v.unknown_fields)))),
    ensures
        enum_value_descriptor_proto_merged(d, parts_bytes(enum_value_descriptor_proto_parts(v)), depth, limit, false, None) == Ok::<EnumValueDescriptorProtoView, ReadError>(enum_value_descriptor_proto_merge_view(d, v)),
{
    let p0 = opt_field_parts::<raw::String>(1u32, v.name);
    let p1 = opt_field_parts::<raw::Int32>(2u32, v.number);
    let p2 = enum_value_options_opt_parts(3u32, v.options);
    let p3 = set_parts(v.unknown_fields);
    let b0 = parts_bytes(p0);
    let b1 = parts_bytes(p1);
    let b2 = parts_bytes(p2);
    let b3 = parts_bytes(p3);
    let r3 = b3;
    let r2 = b2 + r3;
    let r1 = b1 + r2;
    let r0 = b0 + r1;
    let d0 = d;
    let d1 = EnumValueDescriptorProtoView { name: newer_or(v.name, d.name), ..d0 };
    assert(enum_value_descriptor_proto_merged(d0, r0, depth, limit, false, None) == enum_value_descriptor_proto_merged(d1, r1, depth, limit, false, None)) by {
        lemma_enum_value_descriptor_proto_read_name(d0, v.name, r1, depth, limit);
        assert((if v.name is Some { EnumValueDescriptorProtoView { name: v.name, ..d0 } } else { d0 }) == d1);
    }
    let d2 = EnumValueDescriptorProtoView { number: newer_or(v.number, d.number), ..d1 };
    assert(enum_value_descriptor_proto_merged(d1, r1, depth, limit, false, None) == enum_value_descriptor_proto_merged(d2, r2, depth, limit, false, None)) by {
        lemma_enum_value_descriptor_proto_read_number(d1, v.number, r2, depth, limit);
        assert((if v.number is Some { EnumValueDescriptorProtoView { number: v.number, ..d1 } } else { d1 }) == d2);
    }
    let d3 = EnumValueDescriptorProtoView { options: newer_or(v.options, d.options), ..d2 };
    assert(enum_value_descriptor_proto_merged(d2, r2, depth, limit, false, None) == enum_value_descriptor_proto_merged(d3, r3, depth, limit, false, None)) by {
        lemma_enum_value_descriptor_proto_read_options(d2, v.options, r3, depth, limit);
        assert((if v.options is Some { EnumValueDescriptorProtoView { options: v.options, ..d2 } } else { d2 }) == d3);
    }
    let ps = set_pairs(v.unknown_fields);
    assert(enum_value_descriptor_proto_merged(d3, r3, depth, limit, false, None) == Ok::<EnumValueDescriptorProtoView, ReadError>(enum_value_descriptor_proto_merge_view(d, v))) by {
        lemma_set_pairs(v.unknown_fields, d.unknown_fields);
        lemma_entries_readable(v.unknown_fields);
        assert forall|k: int| 0 <= k < ps.len() implies value_readable(#[trigger] ps[k].0, ps[k].1) && !enum_value_descriptor_proto_known_tag(
            tag_value(ps[k].0, field_value_wire_type(ps[k].1)),
        ) by {
            assert(!enum_value_descriptor_proto_known_tag(tag_value(set_pairs(v.unknown_fields)[k].0, field_value_wire_type(set_pairs(v.unknown_fields)[k].1))));
        }
        lemma_enum_value_descriptor_proto_read_unknown(d3, ps, Seq::empty(), depth, limit);
        assert(b3 + Seq::<u8>::empty() =~= b3);
        let dl = EnumValueDescriptorProtoView { unknown_fields: push_pairs(d3.unknown_fields, ps), ..d3 };
        assert(dl == enum_value_descriptor_proto_merge_view(d, v));
    }
}

/// Reading the bytes of the parts of a `EnumValueDescriptorProto`, field by field, gives the message back.
proof fn lemma_enum_value_descriptor_proto_read_all(v: EnumValueDescriptorProtoView, depth: nat, limit: nat)
    requires
        parts_encodable(opt_field_parts::<raw::String>(1u32, v.name)),
        parts_encodable(opt_field_parts::<raw::Int32>(2u32, v.number)),
        parts_encodable(enum_value_options_opt_parts(3u32, v.options)),
        enum_value_descriptor_proto_roundtrips(v, depth, limit),
        parts_bytes(enum_value_descriptor_proto_parts(v)) == parts_bytes(opt_field_parts::<raw::String>(1u32, v.name)) + (parts_bytes(opt_field_parts::<raw::Int32>(2u32, v.number)) + (parts_bytes(enum_value_options_opt_parts(3u32, v.options)) + parts_bytes(set_parts(v.unknown_fields)))),
    ensures
        enum_value_descriptor_proto_merged(enum_value_descriptor_proto_default(), parts_bytes(enum_value_descriptor_proto_parts(v)), depth, limit, false, None) == Ok::<EnumValueDescriptorProtoView, ReadError>(v),
{
    lemma_enum_value_descriptor_proto_merge_all(enum_value_descriptor_proto_default(), v, depth, limit);
    lemma_entries_readable(v.unknown_fields);
    lemma_merge_into_empty(v.unknown_fields);
    assert(enum_value_descriptor_proto_merge_view(enum_value_descriptor_proto_default(), v) == v);
}

/// Merging what a `EnumValueDescriptorProto` `v` writes into a message `d` merges `v` into `d`: each field `v`
/// holds replaces the one `d` holds, repeated values follow those `d` holds, and unknown fields
/// are added to those of `d`, where `d` holds none of the message fields `v` holds (those are
/// merged into each other), at nesting depth `depth` of a reader with recursion limit `limit`
/// that keeps unknown fields, outside any group, where `v` is read back as written.
pub proof fn lemma_enum_value_descriptor_proto_merge_written(d: EnumValueDescriptorProtoView, v: EnumValueDescriptorProtoView, depth: nat, limit: nat)
    requires
        parts_encodable(enum_value_descriptor_proto_parts(v)),
        enum_value_descriptor_proto_roundtrips(v, depth, limit),
        v.options is Some ==> d.options is None,
    ensures
        enum_value_descriptor_proto_merged(d, parts_bytes(enum_value_descriptor_proto_parts(v)), depth, limit, false, None) == Ok::<EnumValueDescriptorProtoView, ReadError>(enum_value_descriptor_proto_merge_view(d, v)),
{
    lemma_enum_value_descriptor_proto_parts_encodable(v);
    lemma_enum_value_descriptor_proto_parts_bytes(v);
    lemma_enum_value_descriptor_proto_merge_all(d, v, depth, limit);
}

/// A `EnumValueDescriptorProto` is read back as it is written: merging the bytes of its parts into a default
/// message, at nesting depth `depth` of a reader with recursion limit `limit` that keeps
/// unknown fields, outside any group, gives the message back, where it is read back as written.
pub proof fn lemma_enum_value_descriptor_proto_roundtrip(v: EnumValueDescriptorProtoView, depth: nat, limit: nat)
    requires
        parts_encodable(enum_value_descriptor_proto_parts(v)),
        enum_value_descriptor_proto_roundtrips(v, depth, limit),
    ensures
        enum_value_descriptor_proto_merged(enum_value_descriptor_proto_default(), parts_bytes(enum_value_descriptor_proto_parts(v)), depth, limit, false, None) == Ok::<EnumValueDescriptorProtoView, ReadError>(v),
{
    lemma_enum_value_descriptor_proto_parts_encodable(v);
    lemma_enum_value_descriptor_proto_parts_bytes(v);
    lemma_enum_value_descriptor_proto_read_all(v, depth, limit);
}

/// The `ServiceDescriptorProto` message of `descriptor.proto`.
#[derive(Clone, Debug)]
pub struct ServiceDescriptorProto {
    name: Option<String>,
    method: RepeatedField<MethodDescriptorProto>,
    options: Option<ServiceOptions>,
    unknown_fields: UnknownFieldSet,
}

/// The view of a `ServiceDescriptorProto`: its fields, and its unknown fields.
pub struct ServiceDescriptorProtoView {
    /// The `name` field.
    pub name: Option<Seq<char>>,
    /// The `method` field.
    pub method: Seq<MethodDescriptorProtoView>,
    /// The `options` field.
    pub options: Option<ServiceOptionsView>,
    /// The unknown fields.
    pub unknown_fields: Seq<(u32, Seq<FieldValue>)>,
}

/// The view of a `ServiceDescriptorProto` value.
pub closed spec fn service_descriptor_proto_view(m: ServiceDescriptorProto) -> ServiceDescriptorProtoView
{
    ServiceDescriptorProtoView {
        name: opt_view(m.name),
        method: method_descriptor_proto_seq_view(m.method@),
        options: match m.options { Some(x) => Some(service_options_view(x)), None => None },
        unknown_fields: m.unknown_fields@,
    }
}

/// The views of a run of `ServiceDescriptorProto` values.
pub closed spec fn service_descriptor_proto_seq_view(s: Seq<ServiceDescriptorProto>) -> Seq<ServiceDescriptorProtoView>
    decreases s,
{
    if s.len() == 0 {
        Seq::empty()
    } else {
        service_descriptor_proto_seq_view(s.subrange(0, s.len() - 1)).push(service_descriptor_proto_view(s[s.len() - 1]))
    }
}

/// The view of a `ServiceDescriptorProto` with no field set.
pub open spec fn service_descriptor_proto_default() -> ServiceDescriptorProtoView {
    ServiceDescriptorProtoView {
        name: None,
        method: Seq::empty(),
        options: None,
        unknown_fields: Seq::empty(),
    }
}

impl View for ServiceDescriptorProto {
    type V = ServiceDescriptorProtoView;

    open spec fn view(&self) -> ServiceDescriptorProtoView {
        service_descriptor_proto_view(*self)
    }
}

impl Default for ServiceDescriptorProto {
    /// A message with no field set.
    fn default() -> (r: ServiceDescriptorProto)
        ensures
            r@ == service_descriptor_proto_default(),
    {
        let r = ServiceDescriptorProto {
            name: None,
            method: Vec::new(),
            options: None,
            unknown_fields: UnknownFieldSet::new(),
        };
        proof {
            assert(method_descriptor_proto_seq_view(r.method@) =~= Seq::empty());
            assert(r@ =~= service_descriptor_proto_default());
        }
        r
    }
}

impl ServiceDescriptorProto {
    /// Gets the `name` field, or its default, the empty string.
    pub fn name(&self) -> (r: &str)
        ensures
            r@ == text_or_empty(self@.name),
    {
        proof {
            reveal_strlit("");
        }
        match &self.name {
            Some(s) => s.as_str(),
            None => "",
        }
    }

    /// Gets the `name` field if it is set.
    pub fn name_option(&self) -> (r: Option<&String>)
        ensures
            opt_ref_view(r) == self@.name,
    {
        self.name.as_ref()
    }

    /// Gets the `name` field for changing it, setting it to its type's default first if it
    /// is not set.
    pub fn name_mut(&mut self) -> (r: &mut String)
        ensures
            (*r)@ == old(self)@.name.unwrap_or(Seq::<char>::empty()),
            final(self)@ == (ServiceDescriptorProtoView { name: Some((*final(r))@), ..old(self)@ }),
    {
        self.name.get_or_insert(String::new())
    }

    /// Returns whether the `name` field is set.
    pub fn has_name(&self) -> (r: bool)
        ensures
            r == self@.name is Some,
    {
        self.name.is_some()
    }

    /// Sets the `name` field.
    pub fn set_name(&mut self, value: String)
        ensures
            final(self)@ == (ServiceDescriptorProtoView { name: Some(value@), ..old(self)@ }),
    {
        self.name = Some(value);
    }

    /// Takes the `name` field out, leaving it unset.
    pub fn take_name(&mut self) -> (r: Option<String>)
        ensures
            opt_view(r) == old(self)@.name,
            final(self)@ == (ServiceDescriptorProtoView { name: None, ..old(self)@ }),
    {
        self.name.take()
    }

    /// Clears the `name` field, leaving it unset.
    pub fn clear_name(&mut self)
        ensures
            final(self)@ == (ServiceDescriptorProtoView { name: None, ..old(self)@ }),
    {
        self.name = None;
    }

    /// Gets the values of the `method` field.
    pub fn method(&self) -> (r: &RepeatedField<MethodDescriptorProto>)
        ensures
            method_descriptor_proto_seq_view(r@) == self@.method,
    {
        &self.method
    }

    /// Gets the values of the `method` field for changing them.
    pub fn method_mut(&mut self) -> (r: &mut RepeatedField<MethodDescriptorProto>)
        ensures
            method_descriptor_proto_seq_view((*r)@) == old(self)@.method,
            final(self)@ == (ServiceDescriptorProtoView { method: method_descriptor_proto_seq_view((*final(r))@), ..old(self)@ }),
    {
        &mut self.method
    }

    /// Gets the `options` field if it is set.
    pub fn options_option(&self) -> (r: Option<&ServiceOptions>)
        ensures
            opt_ref_view(r) == self@.options,
    {
        self.options.as_ref()
    }

    /// Gets the `options` field for changing it, setting it to its type's default first if it
    /// is not set.
    pub fn options_mut(&mut self) -> (r: &mut ServiceOptions)
        ensures
            (*r)@ == old(self)@.options.unwrap_or(service_options_default()),
            final(self)@ == (ServiceDescriptorProtoView { options: Some((*final(r))@), ..old(self)@ }),
    {
        self.options.get_or_insert(ServiceOptions::default())
    }

    /// Returns whether the `options` field is set.
    pub fn has_options(&self) -> (r: bool)
        ensures
            r == self@.options is Some,
    {
        self.options.is_some()
    }

    /// Sets the `options` field.
    pub fn set_options(&mut self, value: ServiceOptions)
        ensures
            final(self)@ == (ServiceDescriptorProtoView { options: Some(value@), ..old(self)@ }),
    {
        self.options = Some(value);
    }

    /// Takes the `options` field out, leaving it unset.
    pub fn take_options(&mut self) -> (r: Option<ServiceOptions>)
        ensures
            opt_view(r) == old(self)@.options,
            final(self)@ == (ServiceDescriptorProtoView { options: None, ..old(self)@ }),
    {
        self.options.take()
    }

    /// Clears the `options` field, leaving it unset.
    pub fn clear_options(&mut self)
        ensures
            final(self)@ == (ServiceDescriptorProtoView { options: None, ..old(self)@ }),
    {
        self.options = None;
    }
}

/// The parts a `ServiceDescriptorProto` is written as: its fields that are set, in field number order, then its
/// unknown fields.
#[verifier::opaque]
pub open spec fn service_descriptor_proto_parts(v: ServiceDescriptorProtoView) -> Seq<(bool, Seq<u8>)>
{
    opt_field_parts::<raw::String>(1u32, v.name) + (method_descriptor_proto_seq_parts(2u32, v.method) + (service_options_opt_parts(3u32, v.options) + (set_parts(v.unknown_fields))))
}

/// The parts the `ServiceDescriptorProto` values of a repeated field with field number `num` are written as:
/// for each, its tag, its length and its parts.
pub open spec fn service_descriptor_proto_seq_parts(num: u32, ys: Seq<ServiceDescriptorProtoView>) -> Seq<(bool, Seq<u8>)>
    decreases ys,
{
    if ys.len() == 0 {
        Seq::empty()
    } else {
        service_descriptor_proto_seq_parts(num, ys.subrange(0, ys.len() - 1)) + entry_parts(num, service_descriptor_proto_parts(ys[ys.len() - 1]))
    }
}

/// What reading the field with tag value `t` from the front of `rest` into `v` gives: the
/// number of bytes read and the message after, or the error.
pub open spec fn service_descriptor_proto_field_read(v: ServiceDescriptorProtoView, t: u32, rest: Seq<u8>, depth: nat, limit: nat, skip: bool, eg: Option<Tag>) -> ReadResult<(int, ServiceDescriptorProtoView)>
{
    if t == 10u32 {
        match <raw::String as Value>::decoding(rest) { Ok((m, x)) => Ok((m, ServiceDescriptorProtoView { name: Some(x), ..v })), Err(e) => Err(e) }
    } else if t == 18u32 {
        match length_delimited_read(rest) { Err(e) => Err(e), Ok((m, b)) => if depth >= limit { Err(ReadError::RecursionLimitExceeded) } else { match method_descriptor_proto_merged(method_descriptor_proto_default(), b, depth + 1, limit, skip, eg) { Ok(y) => Ok((m, ServiceDescriptorProtoView { method: v.method.push(y), ..v })), Err(e) => Err(e) } } }
    } else if t == 26u32 {
        match length_delimited_read(rest) { Err(e) => Err(e), Ok((m, b)) => if depth >= limit { Err(ReadError::RecursionLimitExceeded) } else { match service_options_merged(match v.options { Some(y) => y, None => service_options_default() }, b, depth + 1, limit, skip, eg) { Ok(y) => Ok((m, ServiceDescriptorProtoView { options: Some(y), ..v })), Err(e) => Err(e) } } }
    } else {
        match unknown_field_read(v.unknown_fields, t, rest, depth, limit, skip, eg) {
            Ok((m, u)) => Ok((m, ServiceDescriptorProtoView { unknown_fields: u, ..v })),
            Err(e) => Err(e),
        }
    }
}

/// What reading all of `s` into `v` as `ServiceDescriptorProto` fields gives: the message after, or the error.
/// `depth` and `limit` are the reader's depth and recursion limit, `skip` whether it skips
/// unknown fields, and `eg` the end tag of the group it is in.
pub open spec fn service_descriptor_proto_merged(v: ServiceDescriptorProtoView, s: Seq<u8>, depth: nat, limit: nat, skip: bool, eg: Option<Tag>) -> ReadResult<ServiceDescriptorProtoView>
    decreases s.len(),
{
    if s.len() == 0 {
        Ok(v)
    } else {
        match varint_read(s) {
            Err(e) => Err(e),
            Ok((n, w)) => if n < 1 || n > s.len() {
                Err(eof())
            } else {
                match service_descriptor_proto_field_read(v, w as u32, s.skip(n), depth, limit, skip, eg) {
                    Err(e) => Err(e),
                    Ok((m, v2)) => if m < 0 || n + m > s.len() {
                        Err(eof())
                    } else {
                        service_descriptor_proto_merged(v2, s.skip(n + m), depth, limit, skip, eg)
                    },
                }
            },
        }
    }
}

/// The views of a run of `ServiceDescriptorProto` values, value by value.
pub proof fn lemma_service_descriptor_proto_seq_view(s: Seq<ServiceDescriptorProto>)
    ensures
        service_descriptor_proto_seq_view(s).len() == s.len(),
        forall|i: int| 0 <= i < s.len() ==> #[trigger] service_descriptor_proto_seq_view(s)[i] == service_descriptor_proto_view(s[i]),
    decreases s.len(),
{
    if s.len() > 0 {
        lemma_service_descriptor_proto_seq_view(s.subrange(0, s.len() - 1));
        assert forall|i: int| 0 <= i < s.len() implies #[trigger] service_descriptor_proto_seq_view(s)[i] == service_descriptor_proto_view(s[i]) by {
            if i < s.len() - 1 {
                assert(s.subrange(0, s.len() - 1)[i] == s[i]);
            }
        }
    }
}

/// The parts of two runs of `ServiceDescriptorProto` values are those of the first, then the second.
proof fn lemma_service_descriptor_proto_seq_parts_append(num: u32, a: Seq<ServiceDescriptorProtoView>, b: Seq<ServiceDescriptorProtoView>)
    ensures
        service_descriptor_proto_seq_parts(num, a + b) == service_descriptor_proto_seq_parts(num, a) + service_descriptor_proto_seq_parts(num, b),
    decreases b.len(),
{
    if b.len() == 0 {
        assert(a + b =~= a);
        assert(service_descriptor_proto_seq_parts(num, a) + service_descriptor_proto_seq_parts(num, b) =~= service_descriptor_proto_seq_parts(num, a));
    } else {
        let ab = a + b;
        assert(ab.subrange(0, ab.len() - 1) =~= a + b.subrange(0, b.len() - 1));
        assert(ab[ab.len() - 1] == b[b.len() - 1]);
        lemma_service_descriptor_proto_seq_parts_append(num, a, b.subrange(0, b.len() - 1));
        assert(service_descriptor_proto_seq_parts(num, a + b) =~= service_descriptor_proto_seq_parts(num, a) + service_descriptor_proto_seq_parts(num, b));
    }
}

/// The parts of the first `i + 1` values of a run are those of the first `i`, then the entry
/// of value `i`; and those of the whole run are those of the first `i + 1`, then the rest.
proof fn lemma_service_descriptor_proto_seq_parts_step(num: u32, ys: Seq<ServiceDescriptorProtoView>, i: int)
    requires
        0 <= i < ys.len(),
    ensures
        service_descriptor_proto_seq_parts(num, ys.take(i + 1)) == service_descriptor_proto_seq_parts(num, ys.take(i)) + entry_parts(num, service_descriptor_proto_parts(ys[i])),
        service_descriptor_proto_seq_parts(num, ys) == service_descriptor_proto_seq_parts(num, ys.take(i + 1)) + service_descriptor_proto_seq_parts(num, ys.skip(i + 1)),
{
    assert(ys.take(i + 1).subrange(0, i) =~= ys.take(i));
    assert(ys.take(i + 1)[i] == ys[i]);
    lemma_service_descriptor_proto_seq_parts_append(num, ys.take(i + 1), ys.skip(i + 1));
    assert(ys.take(i + 1) + ys.skip(i + 1) =~= ys);
}

/// The parts of `ServiceDescriptorProto` values are those of the first value's entry, then those of the others.
proof fn lemma_service_descriptor_proto_seq_parts_front(num: u32, ys: Seq<ServiceDescriptorProtoView>)
    requires
        ys.len() > 0,
    ensures
        service_descriptor_proto_seq_parts(num, ys) == entry_parts(num, service_descriptor_proto_parts(ys[0])) + service_descriptor_proto_seq_parts(num, ys.drop_first()),
{
    let one = seq![ys[0]];
    lemma_service_descriptor_proto_seq_parts_append(num, one, ys.drop_first());
    assert(one + ys.drop_first() =~= ys);
    assert(one.subrange(0, 0) =~= Seq::<ServiceDescriptorProtoView>::empty());
    assert(service_descriptor_proto_seq_parts(num, Seq::<ServiceDescriptorProtoView>::empty()) =~= Seq::<(bool, Seq<u8>)>::empty());
    assert(one[0] == ys[0]);
    assert(service_descriptor_proto_seq_parts(num, one) =~= entry_parts(num, service_descriptor_proto_parts(ys[0])));
}

/// Adds the size of the `ServiceDescriptorProto` values of a repeated field with field number `num`.
fn service_descriptor_proto_values_size(vs: &Vec<ServiceDescriptorProto>, builder: LengthBuilder, num: FieldNumber) -> (r: Option<LengthBuilder>)
    ensures
        size_added(builder@ as int, parts_encodable(service_descriptor_proto_seq_parts(num@, service_descriptor_proto_seq_view(vs@))), parts_bytes(service_descriptor_proto_seq_parts(num@, service_descriptor_proto_seq_view(vs@))).len() as int, r),
{
    let ghost ys = service_descriptor_proto_seq_view(vs@);
    proof {
        lemma_service_descriptor_proto_seq_view(vs@);
        assert(ys.take(0) =~= Seq::<ServiceDescriptorProtoView>::empty());
    }
    let mut b = builder;
    let mut i: usize = 0;
    while i < vs.len()
        invariant
            ys == service_descriptor_proto_seq_view(vs@),
            ys.len() == vs@.len(),
            forall|k: int| 0 <= k < vs@.len() ==> #[trigger] ys[k] == service_descriptor_proto_view(vs@[k]),
            i <= vs@.len(),
            size_added(builder@ as int, parts_encodable(service_descriptor_proto_seq_parts(num@, ys.take(i as int))), parts_bytes(service_descriptor_proto_seq_parts(num@, ys.take(i as int))).len() as int, Some(b)),
        decreases vs@.len() - i,
    {
        let ghost y = ys[i as int];
        let ghost done = service_descriptor_proto_seq_parts(num@, ys.take(i as int));
        let ghost cur = entry_parts(num@, service_descriptor_proto_parts(y));
        let ghost rest = service_descriptor_proto_seq_parts(num@, ys.skip(i + 1));
        proof {
            lemma_service_descriptor_proto_seq_parts_step(num@, ys, i as int);
        }
        let len = vs[i].calculate_size();
        let r = add_entry_size(b, num, len, Ghost(service_descriptor_proto_parts(y)));
        proof {
            lemma_size_chain(builder@ as int, done, cur, Some(b), r);
        }
        b = match r {
            Some(b1) => b1,
            None => {
                proof {
                    lemma_size_prefix(builder@ as int, done + cur, rest);
                }
                return None;
            },
        };
        i = i + 1;
    }
    proof {
        assert(ys.take(i as int) =~= ys);
    }
    Some(b)
}

/// Writes the `ServiceDescriptorProto` values of a repeated field with field number `num`: for each, its tag,
/// its length and its fields.
fn write_service_descriptor_proto_values(vs: &Vec<ServiceDescriptorProto>, output: &mut CodedWriter, num: FieldNumber) -> (r: WriteResult)
    ensures
        (final(output).written(), r) == parts_written(old(output).written(), old(output).capacity(), service_descriptor_proto_seq_parts(num@, service_descriptor_proto_seq_view(vs@))),
        final(output).capacity() == old(output).capacity(),
        (*final(final(output).target()))@ == (*final(old(output).target()))@,
{
    let ghost ys = service_descriptor_proto_seq_view(vs@);
    let ghost start = output.written();
    let ghost cap = output.capacity();
    proof {
        lemma_service_descriptor_proto_seq_view(vs@);
        assert(ys.take(0) =~= Seq::<ServiceDescriptorProtoView>::empty());
    }
    let mut i: usize = 0;
    while i < vs.len()
        invariant
            ys == service_descriptor_proto_seq_view(vs@),
            ys.len() == vs@.len(),
            forall|k: int| 0 <= k < vs@.len() ==> #[trigger] ys[k] == service_descriptor_proto_view(vs@[k]),
            i <= vs@.len(),
            start == old(output).written(),
            cap == old(output).capacity(),
            output.capacity() == cap,
            (*final(output.target()))@ == (*final(old(output).target()))@,
            parts_written(start, cap, service_descriptor_proto_seq_parts(num@, ys.take(i as int))).0 == output.written(),
            parts_written(start, cap, service_descriptor_proto_seq_parts(num@, ys.take(i as int))).1 is Ok,
        decreases vs@.len() - i,
    {
        let ghost y = ys[i as int];
        let ghost done = service_descriptor_proto_seq_parts(num@, ys.take(i as int));
        let ghost head = entry_head(num@, service_descriptor_proto_parts(y));
        let ghost cur = head + service_descriptor_proto_parts(y);
        let ghost rest = service_descriptor_proto_seq_parts(num@, ys.skip(i + 1));
        let ghost w0 = output.written();
        proof {
            lemma_service_descriptor_proto_seq_parts_step(num@, ys, i as int);
            lemma_parts_written_append(start, cap, done, cur);
            lemma_parts_written_append(start, cap, done + cur, rest);
            lemma_parts_written_append(w0, cap, head, service_descriptor_proto_parts(y));
            reveal_with_fuel(parts_written, 3);
            assert(head.drop_first().drop_first() =~= Seq::<(bool, Seq<u8>)>::empty());
        }
        match output.write_tag(Tag::new(num, WireType::LengthDelimited)) {
            Ok(()) => {},
            Err(e) => return Err(e),
        }
        let len = match vs[i].calculate_size() {
            Some(len) => len,
            None => return Err(WriteError::ValueTooLarge),
        };
        match output.write_length(len) {
            Ok(()) => {},
            Err(e) => return Err(e),
        }
        match vs[i].write_to(output) {
            Ok(()) => {},
            Err(e) => return Err(e),
        }
        i = i + 1;
    }
    proof {
        assert(ys.take(i as int) =~= ys);
        lemma_ok_unit(parts_written(start, cap, service_descriptor_proto_seq_parts(num@, ys)).1);
    }
    Ok(())
}

/// Reads a `ServiceDescriptorProto` from the reader as a length delimited value, merging it into `this`, one
/// level deeper.
fn merge_service_descriptor_proto_delimited(this: &mut ServiceDescriptorProto, input: &mut CodedReader) -> (r: ReadResult<()>)
    ensures
        match length_delimited_read(old(input).available()) {
            Err(e) => r == Err::<(), ReadError>(e) && same_config(*old(input), *final(input)),
            Ok((m, b)) => if old(input).depth() >= old(input).recursion_limit() {
                r == Err::<(), ReadError>(ReadError::RecursionLimitExceeded) && same_config(*old(input), *final(input))
            } else {
                match service_descriptor_proto_merged(old(this)@, b, old(input).depth() + 1, old(input).recursion_limit(), skips(*old(input)), old(input).end_group_view()) {
                    Ok(y) => r is Ok && final(this)@ == y && final(input).position() == old(input).position() + m
                        && same_state(*old(input), *final(input)),
                    Err(e) => r == Err::<(), ReadError>(e) && same_config(*old(input), *final(input)),
                }
            },
        },
{
    let rem0 = input.remaining();
    let ghost s = input.available();
    let ghost start = *input;
    let length = match input.read_length() {
        Ok(l) => l,
        Err(e) => return Err(e),
    };
    let rem1 = input.remaining();
    let ghost n0 = input.position() - start.position();
    proof {
        lemma_varint_read_len(s);
        assert(input.available() =~= s.skip(n0));
    }
    let previous = match input.push_length(length) {
        Ok(p) => p,
        Err(e) => return Err(e),
    };
    let rem2 = input.remaining();
    let ghost b = s.subrange(n0, n0 + length@);
    proof {
        assert(input.available() =~= b);
        assert(length_delimited_read(s) == Ok::<(int, Seq<u8>), ReadError>((n0 + length@, b)));
    }
    let ghost pushed = *input;
    match input.increment_recursion_count() {
        Ok(()) => {},
        Err(e) => {
            input.pop_length(previous);
            return Err(e);
        },
    }
    let r = this.merge_from(input);
    let rem3 = input.remaining();
    input.decrement_recursion_count();
    input.pop_length(previous);
    r
}

impl ServiceDescriptorProto {
    /// Gets the unknown fields of the message.
    pub fn unknown_fields(&self) -> (r: &UnknownFieldSet)
        ensures
            r@ == self@.unknown_fields,
    {
        &self.unknown_fields
    }

    /// Gets the unknown fields of the message for changing them.
    pub fn unknown_fields_mut(&mut self) -> (r: &mut UnknownFieldSet)
        ensures
            (*r)@ == old(self)@.unknown_fields,
            final(self)@ == (ServiceDescriptorProtoView { unknown_fields: (*final(r))@, ..old(self)@ }),
    {
        &mut self.unknown_fields
    }

    /// Returns whether the message is initialized: whether all its required fields are set.
    pub fn is_initialized(&self) -> (r: bool)
        ensures
            r,
    {
        if !crate::is_initialized(&self.method) {
            return false;
        }
        true
    }

    /// Calculates the size of the message as it is written: `None` if a part cannot be
    /// written or the size does not fit in a length.
    #[verifier::spinoff_prover]
    pub fn calculate_size(&self) -> (r: Option<Length>)
        ensures
            opt_length(r) == parts_size(service_descriptor_proto_parts(self@)),
    {
        let ghost v = self@;
        let ghost all = service_descriptor_proto_parts(v);
        let b0 = LengthBuilder::new();
        let ghost d0 = Seq::<(bool, Seq<u8>)>::empty();
        proof {
            reveal(service_descriptor_proto_parts);
            assert(all =~= d0 + all);
        }
        let ghost p1 = opt_field_parts::<raw::String>(1u32, v.name);
        let ghost rest1 = method_descriptor_proto_seq_parts(2u32, v.method) + (service_options_opt_parts(3u32, v.options) + (set_parts(v.unknown_fields)));
        proof {
            assert(self@.name == opt_inner_view::<raw::String>(self.name));
            assert(all == d0 + (p1 + rest1));
            assert(d0 + (p1 + rest1) =~= d0 + p1 + rest1);
        }
        let r1 = add_opt_field::<raw::String>(b0, FieldNumber::new_unchecked(1), &self.name);
        proof {
            lemma_size_chain(0, d0, p1, Some(b0), r1);
            if r1 is None {
                lemma_size_chain(0, d0 + p1, rest1, r1, r1);
            }
        }
        let b1 = match r1 {
            Some(b) => b,
            None => return None,
        };
        let ghost d1 = d0 + p1;
        let ghost p2 = method_descriptor_proto_seq_parts(2u32, v.method);
        let ghost rest2 = service_options_opt_parts(3u32, v.options) + (set_parts(v.unknown_fields));
        proof {
            assert(all == d1 + (p2 + rest2));
            assert(d1 + (p2 + rest2) =~= d1 + p2 + rest2);
        }
        let r2 = method_descriptor_proto_values_size(&self.method, b1, FieldNumber::new_unchecked(2));
        proof {
            lemma_size_chain(0, d1, p2, Some(b1), r2);
            if r2 is None {
                lemma_size_chain(0, d1 + p2, rest2, r2, r2);
            }
        }
        let b2 = match r2 {
            Some(b) => b,
            None => return None,
        };
        let ghost d2 = d1 + p2;
        let ghost p3 = service_options_opt_parts(3u32, v.options);
        let ghost rest3 = set_parts(v.unknown_fields);
        proof {
            assert(self@.options == opt_view(self.options));
            assert(all == d2 + (p3 + rest3));
            assert(d2 + (p3 + rest3) =~= d2 + p3 + rest3);
        }
        let r3 = service_options_opt_size(&self.options, b2, FieldNumber::new_unchecked(3));
        proof {
            lemma_size_chain(0, d2, p3, Some(b2), r3);
            if r3 is None {
                lemma_size_chain(0, d2 + p3, rest3, r3, r3);
            }
        }
        let b3 = match r3 {
            Some(b) => b,
            None => return None,
        };
        let ghost d3 = d2 + p3;
        let ghost p4 = set_parts(v.unknown_fields);
        let ghost rest4 = Seq::<(bool, Seq<u8>)>::empty();
        proof {
            assert(all == d3 + p4);
            assert(p4 + rest4 =~= p4);
            assert(d3 + (p4 + rest4) =~= d3 + p4 + rest4);
        }
        let r4 = self.unknown_fields.calculate_size(b3);
        proof {
            lemma_size_chain(0, d3, p4, Some(b3), r4);
            if r4 is None {
                lemma_size_chain(0, d3 + p4, rest4, r4, r4);
            }
        }
        let b4 = match r4 {
            Some(b) => b,
            None => return None,
        };
        let ghost d4 = d3 + p4;
        Some(b4.build())
    }

    /// Writes the message to the writer: its fields that are set, in field number order, then
    /// its unknown fields.
    #[verifier::spinoff_prover]
    pub fn write_to(&self, output: &mut CodedWriter) -> (r: WriteResult)
        ensures
            (final(output).written(), r) == parts_written(old(output).written(), old(output).capacity(), service_descriptor_proto_parts(self@)),
            final(output).capacity() == old(output).capacity(),
            (*final(final(output).target()))@ == (*final(old(output).target()))@,
    {
        let ghost v = self@;
        let ghost all = service_descriptor_proto_parts(v);
        let ghost start = output.written();
        let ghost cap = output.capacity();
        let ghost d0 = Seq::<(bool, Seq<u8>)>::empty();
        proof {
            reveal(service_descriptor_proto_parts);
            assert(all =~= d0 + all);
        }
        let ghost p1 = opt_field_parts::<raw::String>(1u32, v.name);
        let ghost rest1 = method_descriptor_proto_seq_parts(2u32, v.method) + (service_options_opt_parts(3u32, v.options) + (set_parts(v.unknown_fields)));
        proof {
            assert(self@.name == opt_inner_view::<raw::String>(self.name));
            assert(all == d0 + (p1 + rest1));
            assert(d0 + (p1 + rest1) =~= d0 + p1 + rest1);
            lemma_parts_written_append(start, cap, d0, p1);
            lemma_parts_written_append(start, cap, d0 + p1, rest1);
        }
        match write_opt_field::<raw::String>(output, FieldNumber::new_unchecked(1), &self.name) {
            Ok(()) => {},
            Err(e) => return Err(e),
        }
        let ghost d1 = d0 + p1;
        let ghost p2 = method_descriptor_proto_seq_parts(2u32, v.method);
        let ghost rest2 = service_options_opt_parts(3u32, v.options) + (set_parts(v.unknown_fields));
        proof {
            assert(all == d1 + (p2 + rest2));
            assert(d1 + (p2 + rest2) =~= d1 + p2 + rest2);
            lemma_parts_written_append(start, cap, d1, p2);
            lemma_parts_written_append(start, cap, d1 + p2, rest2);
        }
        match write_method_descriptor_proto_values(&self.method, output, FieldNumber::new_unchecked(2)) {
            Ok(()) => {},
            Err(e) => return Err(e),
        }
        let ghost d2 = d1 + p2;
        let ghost p3 = service_options_opt_parts(3u32, v.options);
        let ghost rest3 = set_parts(v.unknown_fields);
        proof {
            assert(self@.options == opt_view(self.options));
            assert(all == d2 + (p3 + rest3));
            assert(d2 + (p3 + rest3) =~= d2 + p3 + rest3);
            lemma_parts_written_append(start, cap, d2, p3);
            lemma_parts_written_append(start, cap, d2 + p3, rest3);
        }
        match write_service_options_opt(&self.options, output, FieldNumber::new_unchecked(3)) {
            Ok(()) => {},
            Err(e) => return Err(e),
        }
        let ghost d3 = d2 + p3;
        let ghost p4 = set_parts(v.unknown_fields);
        let ghost rest4 = Seq::<(bool, Seq<u8>)>::empty();
        proof {
            assert(all == d3 + p4);
            assert(p4 + rest4 =~= p4);
            assert(d3 + (p4 + rest4) =~= d3 + p4 + rest4);
            lemma_parts_written_append(start, cap, d3, p4);
            lemma_parts_written_append(start, cap, d3 + p4, rest4);
        }
        match self.unknown_fields.write_to(output) {
            Ok(()) => {},
            Err(e) => return Err(e),
        }
        let ghost d4 = d3 + p4;
        proof {
            assert(all =~= d4 + Seq::<(bool, Seq<u8>)>::empty());
            assert(all == d4);
            lemma_ok_unit(parts_written(start, cap, all).1);
        }
        Ok(())
    }

    /// Reads the value of the field whose tag value `t` was just read into the message.
    #[verifier::spinoff_prover]
    fn merge_field(&mut self, t: u32, input: &mut CodedReader) -> (r: ReadResult<()>)
        ensures
            match service_descriptor_proto_field_read(old(self)@, t, old(input).available(), old(input).depth(), old(input).recursion_limit(), skips(*old(input)), old(input).end_group_view()) {
                Ok((m, v2)) => r is Ok && final(self)@ == v2 && m >= 0 && final(input).position()
                    == old(input).position() + m && same_state(*old(input), *final(input)),
                Err(e) => r == Err::<(), ReadError>(e) && same_config(*old(input), *final(input)),
            },
    {
        let rem0 = input.remaining();
        let ghost rest = input.available();
        if t == 10u32 {
            proof {
                <raw::String as Value>::lemma_decoding_len(rest);
            }
            input.set_last_tag(Some(Tag::new(FieldNumber::new_unchecked(1), WireType::LengthDelimited)));
            match <raw::String as Value>::merge_from(self.name.get_or_insert(std::string::String::new()), input) {
                Ok(()) => {},
                Err(e) => return Err(e),
            }
        } else if t == 18u32 {
            proof {
                lemma_length_delimited_read_len(rest);
            }
            input.set_last_tag(Some(Tag::new(FieldNumber::new_unchecked(2), WireType::LengthDelimited)));
            let mut y = MethodDescriptorProto::default();
            match merge_method_descriptor_proto_delimited(&mut y, input) {
                Ok(()) => {},
                Err(e) => return Err(e),
            }
            let ghost old_values = self.method@;
            self.method.push(y);
            proof {
                assert(self.method@.subrange(0, self.method@.len() - 1) =~= old_values);
            }
        } else if t == 26u32 {
            proof {
                lemma_length_delimited_read_len(rest);
            }
            input.set_last_tag(Some(Tag::new(FieldNumber::new_unchecked(3), WireType::LengthDelimited)));
            match &mut self.options {
                Some(y) => match merge_service_options_delimited(y, input) {
                    Ok(()) => {},
                    Err(e) => return Err(e),
                },
                None => {
                    let mut y = ServiceOptions::default();
                    match merge_service_options_delimited(&mut y, input) {
                        Ok(()) => {},
                        Err(e) => return Err(e),
                    }
                    self.options = Some(y);
                },
            }
        } else {
            let tag = match Tag::try_from(t) {
                Ok(tag) => tag,
                Err(_) => return Err(ReadError::InvalidTag(t)),
            };
            input.set_last_tag(Some(tag));
            match self.unknown_fields.try_add_field_from(input) {
                Ok(TryRead::Consumed) => {},
                Ok(TryRead::Yielded) => match input.skip() {
                    Ok(()) => {},
                    Err(e) => return Err(e),
                },
                Err(e) => return Err(e),
            }
        }
        let rem1 = input.remaining();
        Ok(())
    }

    /// Merges the message with fields read from the reader, up to its limit. Scalar fields
    /// read replace those set, message fields are merged, repeated fields are added to,
    /// and unknown fields are stored or skipped as the reader says. On an error the message
    /// may hold some of the fields read before it.
    #[verifier::spinoff_prover]
    #[verifier::rlimit(50)]
    pub fn merge_from(&mut self, input: &mut CodedReader) -> (r: ReadResult<()>)
        ensures
            merge_outcome(service_descriptor_proto_merged(old(self)@, old(input).available(), old(input).depth(), old(input).recursion_limit(), skips(*old(input)), old(input).end_group_view()), final(self)@, *old(input), *final(input), r),
    {
        let rem0 = input.remaining();
        let ghost start = *input;
        let ghost total = service_descriptor_proto_merged(self@, input.available(), input.depth(), input.recursion_limit(), skips(*input), input.end_group_view());
        loop
            invariant
                start == *old(input),
                same_state(start, *input),
                0 <= start.position() <= input.position(),
                input.limit_end() <= input.input().len(),
                total == service_descriptor_proto_merged(old(self)@, start.available(), start.depth(), start.recursion_limit(), skips(start), start.end_group_view()),
                total == service_descriptor_proto_merged(self@, input.available(), start.depth(), start.recursion_limit(), skips(start), start.end_group_view()),
            decreases input.available().len(),
        {
            let ghost s = input.available();
            let ghost before = *input;
            let ghost v = self@;
            let t = match input.read_field() {
                Ok(Some(t)) => t,
                Ok(None) => return Ok(()),
                Err(e) => return Err(e),
            };
            let rem1 = input.remaining();
            let ghost n = input.position() - before.position();
            proof {
                lemma_varint_read_len(s);
                assert(input.available() =~= s.skip(n));
            }
            let ghost mid = *input;
            match self.merge_field(t, input) {
                Ok(()) => {},
                Err(e) => return Err(e),
            }
            let rem2 = input.remaining();
            proof {
                let m = input.position() - mid.position();
                assert(input.available() =~= s.skip(n + m));
            }
        }
    }
}

impl crate::Message for ServiceDescriptorProto {
    open spec fn merged(v: ServiceDescriptorProtoView, s: Seq<u8>, depth: nat, limit: nat, skip: bool, eg: Option<Tag>) -> ReadResult<ServiceDescriptorProtoView> {
        service_descriptor_proto_merged(v, s, depth, limit, skip, eg)
    }

    open spec fn parts(v: ServiceDescriptorProtoView) -> Seq<(bool, Seq<u8>)> {
        service_descriptor_proto_parts(v)
    }

    open spec fn initialized(v: ServiceDescriptorProtoView) -> bool {
        true
    }

    open spec fn unknown_fields_of(v: ServiceDescriptorProtoView) -> Seq<(u32, Seq<FieldValue>)> {
        v.unknown_fields
    }

    open spec fn with_unknown_fields(v: ServiceDescriptorProtoView, u: Seq<(u32, Seq<FieldValue>)>) -> ServiceDescriptorProtoView {
        ServiceDescriptorProtoView { unknown_fields: u, ..v }
    }

    fn merge_from(&mut self, input: &mut CodedReader) -> (r: ReadResult<()>) {
        ServiceDescriptorProto::merge_from(self, input)
    }

    fn calculate_size(&self) -> (r: Option<Length>) {
        ServiceDescriptorProto::calculate_size(self)
    }

    fn write_to(&self, output: &mut CodedWriter) -> (r: WriteResult) {
        ServiceDescriptorProto::write_to(self, output)
    }

    fn is_initialized(&self) -> (r: bool) {
        ServiceDescriptorProto::is_initialized(self)
    }

    fn unknown_fields(&self) -> (r: &UnknownFieldSet) {
        ServiceDescriptorProto::unknown_fields(self)
    }

    fn unknown_fields_mut(&mut self) -> (r: &mut UnknownFieldSet) {
        ServiceDescriptorProto::unknown_fields_mut(self)
    }
}

impl DebugMessage for ServiceDescriptorProto {
    open spec fn spec_full_name() -> Seq<char> {
        "google.protobuf.ServiceDescriptorProto"@
    }

    open spec fn spec_name() -> Seq<char> {
        "ServiceDescriptorProto"@
    }

    fn full_name() -> (r: &'static str) {
        "google.protobuf.ServiceDescriptorProto"
    }

    fn name() -> (r: &'static str) {
        "ServiceDescriptorProto"
    }
}

/// Whether `t` is the tag of a field a `ServiceDescriptorProto` reads.
pub open spec fn service_descriptor_proto_known_tag(t: u32) -> bool {
    t == 10u32 || t == 18u32 || t == 26u32
}

/// Whether a `ServiceDescriptorProto` is read back as it is written, at nesting depth `depth` of a reader with
/// recursion limit `limit`: its messages are read back as written one level deeper, within
/// the limit; and its unknown fields are read back as written, none with the tag of one of
/// its fields.
pub open spec fn service_descriptor_proto_roundtrips(v: ServiceDescriptorProtoView, depth: nat, limit: nat) -> bool
{
    &&& (v.options matches Some(y) ==> depth < limit && service_options_roundtrips(y, depth + 1, limit))
    &&& (v.method.len() > 0 ==> depth < limit)
    &&& forall|i: int| 0 <= i < v.method.len() ==> method_descriptor_proto_roundtrips(#[trigger] v.method[i], depth + 1, limit)
    &&& set_readable(v.unknown_fields)
    &&& forall|k: int| 0 <= k < set_pairs(v.unknown_fields).len() ==> !service_descriptor_proto_known_tag(tag_value(
        #[trigger] set_pairs(v.unknown_fields)[k].0,
        field_value_wire_type(set_pairs(v.unknown_fields)[k].1),
    ))
}

/// Reading a `ServiceDescriptorProto` field whose tag is read from the front of `s` and whose value is read after
/// it continues with the rest of `s`.
proof fn lemma_service_descriptor_proto_step(v: ServiceDescriptorProtoView, s: Seq<u8>, k: int, t: u32, m: int, v2: ServiceDescriptorProtoView, depth: nat, limit: nat)
    requires
        varint_read(s) == Ok::<(int, u64), ReadError>((k, t as u64)),
        1 <= k <= s.len(),
        service_descriptor_proto_field_read(v, t, s.skip(k), depth, limit, false, None) == Ok::<(int, ServiceDescriptorProtoView), ReadError>((m, v2)),
        0 <= m,
        k + m <= s.len(),
    ensures
        service_descriptor_proto_merged(v, s, depth, limit, false, None) == service_descriptor_proto_merged(v2, s.skip(k + m), depth, limit, false, None),
{
    assert((t as u64) as u32 == t);
}

/// Reading the entries of `MethodDescriptorProto` values written as field `method` of a `ServiceDescriptorProto` adds the values.
#[verifier::spinoff_prover]
#[verifier::rlimit(60)]
proof fn lemma_service_descriptor_proto_read_method(v: ServiceDescriptorProtoView, ys: Seq<MethodDescriptorProtoView>, rest: Seq<u8>, depth: nat, limit: nat)
    requires
        parts_encodable(method_descriptor_proto_seq_parts(2u32, ys)),
        ys.len() > 0 ==> depth < limit,
        forall|i: int| 0 <= i < ys.len() ==> method_descriptor_proto_roundtrips(#[trigger] ys[i], depth + 1, limit),
    ensures
        service_descriptor_proto_merged(v, parts_bytes(method_descriptor_proto_seq_parts(2u32, ys)) + rest, depth, limit, false, None) == service_descriptor_proto_merged(
            ServiceDescriptorProtoView { method: v.method + ys, ..v },
            rest,
            depth, limit, false, None,
        ),
    decreases ys.len(),
{
    if ys.len() == 0 {
        assert(parts_bytes(method_descriptor_proto_seq_parts(2u32, ys)) + rest =~= rest);
        assert(v.method + ys =~= v.method);
    } else {
        let y = ys[0];
        let tail = ys.drop_first();
        assert forall|i: int| 0 <= i < tail.len() implies method_descriptor_proto_roundtrips(#[trigger] tail[i], depth + 1, limit) by {
            assert(tail[i] == ys[i + 1]);
        }
        lemma_method_descriptor_proto_seq_parts_front(2u32, ys);
        let ep = entry_parts(2u32, method_descriptor_proto_parts(y));
        lemma_parts_encodable_two(ep, method_descriptor_proto_seq_parts(2u32, tail));
        lemma_parts_bytes_append(ep, method_descriptor_proto_seq_parts(2u32, tail));
        assert(ep[1].0);
        let after = parts_bytes(method_descriptor_proto_seq_parts(2u32, tail)) + rest;
        let s = parts_bytes(method_descriptor_proto_seq_parts(2u32, ys)) + rest;
        assert(s =~= parts_bytes(ep) + after);
        lemma_entry_bytes_read(2u32, method_descriptor_proto_parts(y), after);
        lemma_tag_value(2u32, WireType::LengthDelimited);
        lemma_method_descriptor_proto_roundtrip(y, depth + 1, limit);
        let hl = parts_bytes(ep).len() as int;
        let k = varint_len(18u64) as int;
        let v2 = ServiceDescriptorProtoView { method: v.method.push(y), ..v };
        lemma_service_descriptor_proto_step(v, s, k, 18u32, hl - k, v2, depth, limit);
        lemma_service_descriptor_proto_read_method(v2, tail, rest, depth, limit);
        assert(v.method.push(y) + tail =~= v.method + ys);
    }
}

/// Reading the field `name` of a `ServiceDescriptorProto` written from `o` sets it to `o`, whatever it held; nothing
/// is written, and nothing changes, for `None`.
proof fn lemma_service_descriptor_proto_read_name(d: ServiceDescriptorProtoView, o: Option<Seq<char>>, rest: Seq<u8>, depth: nat, limit: nat)
    requires
        parts_encodable(opt_field_parts::<raw::String>(1u32, o)),
    ensures
        service_descriptor_proto_merged(d, parts_bytes(opt_field_parts::<raw::String>(1u32, o)) + rest, depth, limit, false, None) == service_descriptor_proto_merged(if o is Some { ServiceDescriptorProtoView { name: o, ..d } } else { d }, rest, depth, limit, false, None),
{
    match o {
        None => {
            assert(parts_bytes(opt_field_parts::<raw::String>(1u32, o)) + rest =~= rest);
        },
        Some(x) => {
            let p = field_parts::<raw::String>(1u32, x);
            assert(p[1].0);
            let s = parts_bytes(p) + rest;
            lemma_field_bytes_read::<raw::String>(1u32, x, rest);
            lemma_tag_value(1u32, WireType::LengthDelimited);
            let hl = parts_bytes(p).len() as int;
            let k = varint_len(10u64) as int;
            let v2 = ServiceDescriptorProtoView { name: Some(x), ..d };
            lemma_service_descriptor_proto_step(d, s, k, 10u32, hl - k, v2, depth, limit);
        },
    }
}

/// Reading the field `options` of a `ServiceDescriptorProto` written from `o`, where the message does not hold it,
/// sets it to `o`; nothing is written, and nothing changes, for `None`.
#[verifier::rlimit(40)]
proof fn lemma_service_descriptor_proto_read_options(d: ServiceDescriptorProtoView, o: Option<ServiceOptionsView>, rest: Seq<u8>, depth: nat, limit: nat)
    requires
        o is Some ==> d.options is None,
        parts_encodable(service_options_opt_parts(3u32, o)),
        o matches Some(y) ==> depth < limit && service_options_roundtrips(y, depth + 1, limit),
    ensures
        service_descriptor_proto_merged(d, parts_bytes(service_options_opt_parts(3u32, o)) + rest, depth, limit, false, None) == service_descriptor_proto_merged(if o is Some { ServiceDescriptorProtoView { options: o, ..d } } else { d }, rest, depth, limit, false, None),
{
    match o {
        None => {
            assert(parts_bytes(service_options_opt_parts(3u32, o)) + rest =~= rest);
        },
        Some(y) => {
            let ep = entry_parts(3u32, service_options_parts(y));
            assert(ep[1].0);
            let s = parts_bytes(ep) + rest;
            lemma_entry_bytes_read(3u32, service_options_parts(y), rest);
            lemma_tag_value(3u32, WireType::LengthDelimited);
            lemma_parts_encodable_two(entry_head(3u32, service_options_parts(y)), service_options_parts(y));
            lemma_service_options_roundtrip(y, depth + 1, limit);
            let hl = parts_bytes(ep).len() as int;
            let k = varint_len(26u64) as int;
            let v2 = ServiceDescriptorProtoView { options: Some(y), ..d };
            lemma_service_descriptor_proto_step(d, s, k, 26u32, hl - k, v2, depth, limit);
            assert(s.skip(hl) == rest);
        },
    }
}

/// Reading the field `options` of a `ServiceDescriptorProto` merges what is read into the value the message already
/// holds there (or into a default value, where it holds none): the field read from the bytes
/// written from `y` becomes the existing value with the bytes of `y` merged into it, and the
/// rest is read into the message so changed. Past the recursion limit the read is refused.
#[verifier::rlimit(40)]
pub proof fn lemma_service_descriptor_proto_merge_options(d: ServiceDescriptorProtoView, y: ServiceOptionsView, rest: Seq<u8>, depth: nat, limit: nat)
    requires
        parts_encodable(service_options_opt_parts(3u32, Some(y))),
    ensures
        service_descriptor_proto_merged(d, parts_bytes(service_options_opt_parts(3u32, Some(y))) + rest, depth, limit, false, None) == if depth >= limit {
            Err::<ServiceDescriptorProtoView, ReadError>(ReadError::RecursionLimitExceeded)
        } else {
            match service_options_merged(match d.options { Some(o) => o, None => service_options_default() }, parts_bytes(service_options_parts(y)), depth + 1, limit, false, None) {
                Ok(z) => service_descriptor_proto_merged(ServiceDescriptorProtoView { options: Some(z), ..d }, rest, depth, limit, false, None),
                Err(e) => Err(e),
            }
        },
{
    let ep = entry_parts(3u32, service_options_parts(y));
    assert(service_options_opt_parts(3u32, Some(y)) == ep);
    assert(ep[1].0);
    let s = parts_bytes(ep) + rest;
    lemma_entry_bytes_read(3u32, service_options_parts(y), rest);
    lemma_tag_value(3u32, WireType::LengthDelimited);
    let hl = parts_bytes(ep).len() as int;
    let k = varint_len(26u64) as int;
    assert((26u64 as u64) as u32 == 26u32);
    if depth < limit {
        match service_options_merged(match d.options { Some(o) => o, None => service_options_default() }, parts_bytes(service_options_parts(y)), depth + 1, limit, false, None) {
            Ok(z) => {
                let v2 = ServiceDescriptorProtoView { options: Some(z), ..d };
                lemma_service_descriptor_proto_step(d, s, k, 26u32, hl - k, v2, depth, limit);
                assert(s.skip(hl) == rest);
            },
            Err(e) => {},
        }
    }
}

/// Merging the bytes written for the field `options` of a `ServiceDescriptorProto` from `y` into `d` merges `y` into
/// the value `d` holds there (or into a default value, where it holds none), as merging
/// messages does, where `y` is read back as written and the existing value holds none of the
/// message fields `y` holds.
pub proof fn lemma_service_descriptor_proto_merge_options_written(d: ServiceDescriptorProtoView, y: ServiceOptionsView, rest: Seq<u8>, depth: nat, limit: nat)
    requires
        parts_encodable(service_options_opt_parts(3u32, Some(y))),
        depth < limit,
        service_options_roundtrips(y, depth + 1, limit),
    ensures
        service_descriptor_proto_merged(d, parts_bytes(service_options_opt_parts(3u32, Some(y))) + rest, depth, limit, false, None) == service_descriptor_proto_merged(ServiceDescriptorProtoView { options: Some(service_options_merge_view(match d.options { Some(o) => o, None => service_options_default() }, y)), ..d }, rest, depth, limit, false, None),
{
    lemma_service_descriptor_proto_merge_options(d, y, rest, depth, limit);
    lemma_parts_encodable_two(entry_head(3u32, service_options_parts(y)), service_options_parts(y));
    assert(service_options_opt_parts(3u32, Some(y)) == entry_parts(3u32, service_options_parts(y)));
    lemma_service_options_merge_written(match d.options { Some(o) => o, None => service_options_default() }, y, depth + 1, limit);
}

/// Reading unknown field values written one after the other into a `ServiceDescriptorProto`, none with the tag
/// of one of its fields, adds them to its unknown fields.
proof fn lemma_service_descriptor_proto_read_unknown(v: ServiceDescriptorProtoView, ps: Seq<(u32, FieldValue)>, rest: Seq<u8>, depth: nat, limit: nat)
    requires
        forall|k: int| 0 <= k < ps.len() ==> value_readable(#[trigger] ps[k].0, ps[k].1) && !service_descriptor_proto_known_tag(
            tag_value(ps[k].0, field_value_wire_type(ps[k].1)),
        ),
    ensures
        service_descriptor_proto_merged(v, parts_bytes(pairs_parts(ps)) + rest, depth, limit, false, None) == service_descriptor_proto_merged(
            ServiceDescriptorProtoView { unknown_fields: push_pairs(v.unknown_fields, ps), ..v },
            rest,
            depth, limit, false, None,
        ),
    decreases ps.len(),
{
    if ps.len() == 0 {
        assert(parts_bytes(pairs_parts(ps)) + rest =~= rest);
    } else {
        let n = ps[0].0;
        let fv = ps[0].1;
        let tail = ps.drop_first();
        assert forall|k: int| 0 <= k < tail.len() implies value_readable(#[trigger] tail[k].0, tail[k].1) && !service_descriptor_proto_known_tag(
            tag_value(tail[k].0, field_value_wire_type(tail[k].1)),
        ) by {
            assert(tail[k] == ps[k + 1]);
        }
        assert(value_readable(ps[0].0, ps[0].1));
        lemma_parts_bytes_append(field_value_parts(n, fv), pairs_parts(tail));
        let after = parts_bytes(pairs_parts(tail)) + rest;
        let s = parts_bytes(pairs_parts(ps)) + rest;
        assert(s =~= parts_bytes(field_value_parts(n, fv)) + after);
        lemma_read_value_bytes(n, fv, after);
        let t = tag_value(n, field_value_wire_type(fv));
        let hl = parts_bytes(field_value_parts(n, fv)).len() as int;
        let k = varint_len(t as u64) as int;
        let v2 = ServiceDescriptorProtoView { unknown_fields: view_push(v.unknown_fields, n, fv), ..v };
        lemma_service_descriptor_proto_step(v, s, k, t, hl - k, v2, depth, limit);
        lemma_service_descriptor_proto_read_unknown(v2, tail, rest, depth, limit);
    }
}

/// The writability of the parts of a `ServiceDescriptorProto` is that of each field's parts.
proof fn lemma_service_descriptor_proto_parts_encodable(v: ServiceDescriptorProtoView)
    ensures
        parts_encodable(service_descriptor_proto_parts(v)) == (parts_encodable(opt_field_parts::<raw::String>(1u32, v.name)) && parts_encodable(method_descriptor_proto_seq_parts(2u32, v.method)) && parts_encodable(service_options_opt_parts(3u32, v.options)) && parts_encodable(set_parts(v.unknown_fields))),
{
    reveal(service_descriptor_proto_parts);
    let p0 = opt_field_parts::<raw::String>(1u32, v.name);
    let p1 = method_descriptor_proto_seq_parts(2u32, v.method);
    let p2 = service_options_opt_parts(3u32, v.options);
    let p3 = set_parts(v.unknown_fields);
    let q3 = p3;
    let q2 = p2 + q3;
    lemma_parts_encodable_two(p2, q3);
    let q1 = p1 + q2;
    lemma_parts_encodable_two(p1, q2);
    let q0 = p0 + q1;
    lemma_parts_encodable_two(p0, q1);
    assert(service_descriptor_proto_parts(v) == q0);
}

/// The bytes of the parts of a `ServiceDescriptorProto` are those of each field's parts, one after the other.
proof fn lemma_service_descriptor_proto_parts_bytes(v: ServiceDescriptorProtoView)
    ensures
        parts_bytes(service_descriptor_proto_parts(v)) == parts_bytes(opt_field_parts::<raw::String>(1u32, v.name)) + (parts_bytes(method_descriptor_proto_seq_parts(2u32, v.method)) + (parts_bytes(service_options_opt_parts(3u32, v.options)) + parts_bytes(set_parts(v.unknown_fields)))),
{
    reveal(service_descriptor_proto_parts);
    let p0 = opt_field_parts::<raw::String>(1u32, v.name);
    let p1 = method_descriptor_proto_seq_parts(2u32, v.method);
    let p2 = service_options_opt_parts(3u32, v.options);
    let p3 = set_parts(v.unknown_fields);
    let q3 = p3;
    let q2 = p2 + q3;
    lemma_parts_bytes_append(p2, q3);
    let q1 = p1 + q2;
    lemma_parts_bytes_append(p1, q2);
    let q0 = p0 + q1;
    lemma_parts_bytes_append(p0, q1);
    assert(service_descriptor_proto_parts(v) == q0);
}

/// The message a `ServiceDescriptorProto` `d` becomes when `v` is merged into it: each field `v` holds once
/// replaces the one `d` holds, the values of each repeated field of `v` follow those of `d`,
/// and the unknown fields of `v` are added to those of `d`, field number by field number.
pub open spec fn service_descriptor_proto_merge_view(d: ServiceDescriptorProtoView, v: ServiceDescriptorProtoView) -> ServiceDescriptorProtoView {
    ServiceDescriptorProtoView { name: newer_or(v.name, d.name), method: d.method + v.method, options: newer_or(v.options, d.options), unknown_fields: view_merge(d.unknown_fields, v.unknown_fields) }
}

/// Reading the bytes of the parts of a `ServiceDescriptorProto` `v`, field by field, into `d` merges `v` into `d`.
#[verifier::spinoff_prover]
#[verifier::rlimit(60)]
proof fn lemma_service_descriptor_proto_merge_all(d: ServiceDescriptorProtoView, v: ServiceDescriptorProtoView, depth: nat, limit: nat)
    requires
        parts_encodable(opt_field_parts::<raw::String>(1u32, v.name)),
        parts_encodable(method_descriptor_proto_seq_parts(2u32, v.method)),
        parts_encodable(service_options_opt_parts(3u32, v.options)),
        service_descriptor_proto_roundtrips(v, depth, limit),
        v.options is Some ==> d.options is None,
        parts_bytes(service_descriptor_proto_parts(v)) == parts_bytes(opt_field_parts::<raw::String>(1u32, v.name)) + (parts_bytes(method_descriptor_proto_seq_parts(2u32, v.method)) + (parts_bytes(service_options_opt_parts(3u32, v.options)) + parts_bytes(set_parts(v.unknown_fields)))),
    ensures
        service_descriptor_proto_merged(d, parts_bytes(service_descriptor_proto_parts(v)), depth, limit, false, None) == Ok::<ServiceDescriptorProtoView, ReadError>(service_descriptor_proto_merge_view(d, v)),
{
    let p0 = opt_field_parts::<raw::String>(1u32, v.name);
    let p1 = method_descriptor_proto_seq_parts(2u32, v.method);
    let p2 = service_options_opt_parts(3u32, v.options);
    let p3 = set_parts(v.unknown_fields);
    let b0 = parts_bytes(p0);
    let b1 = parts_bytes(p1);
    let b2 = parts_bytes(p2);
    let b3 = parts_bytes(p3);
    let r3 = b3;
    let r2 = b2 + r3;
    let r1 = b1 + r2;
    let r0 = b0 + r1;
    let d0 = d;
    let d1 = ServiceDescriptorProtoView { name: newer_or(v.name, d.name), ..d0 };
    assert(service_descriptor_proto_merged(d0, r0, depth, limit, false, None) == service_descriptor_proto_merged(d1, r1, depth, limit, false, None)) by {
        lemma_service_descriptor_proto_read_name(d0, v.name, r1, depth, limit);
        assert((if v.name is Some { ServiceDescriptorProtoView { name: v.name, ..d0 } } else { d0 }) == d1);
    }
    let d2 = ServiceDescriptorProtoView { method: d.method + v.method, ..d1 };
    assert(service_descriptor_proto_merged(d1, r1, depth, limit, false, None) == service_descriptor_proto_merged(d2, r2, depth, limit, false, None)) by {
        lemma_service_descriptor_proto_read_method(d1, v.method, r2, depth, limit);
        assert(ServiceDescriptorProtoView { method: d1.method + v.method, ..d1 } == d2);
    }
    let d3 = ServiceDescriptorProtoView { options: newer_or(v.options, d.options), ..d2 };
    assert(service_descriptor_proto_merged(d2, r2, depth, limit, false, None) == service_descriptor_proto_merged(d3, r3, depth, limit, false, None)) by {
        lemma_service_descriptor_proto_read_options(d2, v.options, r3, depth, limit);
        assert((if v.options is Some { ServiceDescriptorProtoView { options: v.options, ..d2 } } else { d2 }) == d3);
    }
    let ps = set_pairs(v.unknown_fields);
    assert(service_descriptor_proto_merged(d3, r3, depth, limit, false, None) == Ok::<ServiceDescriptorProtoView, ReadError>(service_descriptor_proto_merge_view(d, v))) by {
        lemma_set_pairs(v.unknown_fields, d.unknown_fields);
        lemma_entries_readable(v.unknown_fields);
        assert forall|k: int| 0 <= k < ps.len() implies value_readable(#[trigger] ps[k].0, ps[k].1) && !service_descriptor_proto_known_tag(
            tag_value(ps[k].0, field_value_wire_type(ps[k].1)),
        ) by {
            assert(!service_descriptor_proto_known_tag(tag_value(set_pairs(v.unknown_fields)[k].0, field_value_wire_type(set_pairs(v.unknown_fields)[k].1))));
        }
        lemma_service_descriptor_proto_read_unknown(d3, ps, Seq::empty(), depth, limit);
        assert(b3 + Seq::<u8>::empty() =~= b3);
        let dl = ServiceDescriptorProtoView { unknown_fields: push_pairs(d3.unknown_fields, ps), ..d3 };
        assert(dl == service_descriptor_proto_merge_view(d, v));
    }
}

/// Reading the bytes of the parts of a `ServiceDescriptorProto`, field by field, gives the message back.
proof fn lemma_service_descriptor_proto_read_all(v: ServiceDescriptorProtoView, depth: nat, limit: nat)
    requires
        parts_encodable(opt_field_parts::<raw::String>(1u32, v.name)),
        parts_encodable(method_descriptor_proto_seq_parts(2u32, v.method)),
        parts_encodable(service_options_opt_parts(3u32, v.options)),
        service_descriptor_proto_roundtrips(v, depth, limit),
        parts_bytes(service_descriptor_proto_parts(v)) == parts_bytes(opt_field_parts::<raw::String>(1u32, v.name)) + (parts_bytes(method_descriptor_proto_seq_parts(2u32, v.method)) + (parts_bytes(service_options_opt_parts(3u32, v.options)) + parts_bytes(set_parts(v.unknown_fields)))),
    ensures
        service_descriptor_proto_merged(service_descriptor_proto_default(), parts_bytes(service_descriptor_proto_parts(v)), depth, limit, false, None) == Ok::<ServiceDescriptorProtoView, ReadError>(v),
{
    lemma_service_descriptor_proto_merge_all(service_descriptor_proto_default(), v, depth, limit);
    lemma_entries_readable(v.unknown_fields);
    lemma_merge_into_empty(v.unknown_fields);
    assert(Seq::empty() + v.method =~= v.method);
    assert(service_descriptor_proto_merge_view(service_descriptor_proto_default(), v) == v);
}

/// Merging what a `ServiceDescriptorProto` `v` writes into a message `d` merges `v` into `d`: each field `v`
/// holds replaces the one `d` holds, repeated values follow those `d` holds, and unknown fields
/// are added to those of `d`, where `d` holds none of the message fields `v` holds (those are
/// merged into each other), at nesting depth `depth` of a reader with recursion limit `limit`
/// that keeps unknown fields, outside any group, where `v` is read back as written.
pub proof fn lemma_service_descriptor_proto_merge_written(d: ServiceDescriptorProtoView, v: ServiceDescriptorProtoView, depth: nat, limit: nat)
    requires
        parts_encodable(service_descriptor_proto_parts(v)),
        service_descriptor_proto_roundtrips(v, depth, limit),
        v.options is Some ==> d.options is None,
    ensures
        service_descriptor_proto_merged(d, parts_bytes(service_descriptor_proto_parts(v)), depth, limit, false, None) == Ok::<ServiceDescriptorProtoView, ReadError>(service_descriptor_proto_merge_view(d, v)),
{
    lemma_service_descriptor_proto_parts_encodable(v);
    lemma_service_descriptor_proto_parts_bytes(v);
    lemma_service_descriptor_proto_merge_all(d, v, depth, limit);
}

/// A `ServiceDescriptorProto` is read back as it is written: merging the bytes of its parts into a default
/// message, at nesting depth `depth` of a reader with recursion limit `limit` that keeps
/// unknown fields, outside any group, gives the message back, where it is read back as written.
pub proof fn lemma_service_descriptor_proto_roundtrip(v: ServiceDescriptorProtoView, depth: nat, limit: nat)
    requires
        parts_encodable(service_descriptor_proto_parts(v)),
        service_descriptor_proto_roundtrips(v, depth, limit),
    ensures
        service_descriptor_proto_merged(service_descriptor_proto_default(), parts_bytes(service_descriptor_proto_parts(v)), depth, limit, false, None) == Ok::<ServiceDescriptorProtoView, ReadError>(v),
{
    lemma_service_descriptor_proto_parts_encodable(v);
    lemma_service_descriptor_proto_parts_bytes(v);
    lemma_service_descriptor_proto_read_all(v, depth, limit);
}

/// The `MethodDescriptorProto` message of `descriptor.proto`.
#[derive(Clone, Debug)]
pub struct MethodDescriptorProto {
    name: Option<String>,
    input_type: Option<String>,
    output_type: Option<String>,
    options: Option<MethodOptions>,
    client_streaming: Option<bool>,
    server_streaming: Option<bool>,
    unknown_fields: UnknownFieldSet,
}

/// The view of a `MethodDescriptorProto`: its fields, and its unknown fields.
pub struct MethodDescriptorProtoView {
    /// The `name` field.
    pub name: Option<Seq<char>>,
    /// The `input_type` field.
    pub input_type: Option<Seq<char>>,
    /// The `output_type` field.
    pub output_type: Option<Seq<char>>,
    /// The `options` field.
    pub options: Option<MethodOptionsView>,
    /// The `client_streaming` field.
    pub client_streaming: Option<bool>,
    /// The `server_streaming` field.
    pub server_streaming: Option<bool>,
    /// The unknown fields.
    pub unknown_fields: Seq<(u32, Seq<FieldValue>)>,
}

/// The view of a `MethodDescriptorProto` value.
pub closed spec fn method_descriptor_proto_view(m: MethodDescriptorProto) -> MethodDescriptorProtoView
{
    MethodDescriptorProtoView {
        name: opt_view(m.name),
        input_type: opt_view(m.input_type),
        output_type: opt_view(m.output_type),
        options: match m.options { Some(x) => Some(method_options_view(x)), None => None },
        client_streaming: m.client_streaming,
        server_streaming: m.server_streaming,
        unknown_fields: m.unknown_fields@,
    }
}

/// The views of a run of `MethodDescriptorProto` values.
pub closed spec fn method_descriptor_proto_seq_view(s: Seq<MethodDescriptorProto>) -> Seq<MethodDescriptorProtoView>
    decreases s,
{
    if s.len() == 0 {
        Seq::empty()
    } else {
        method_descriptor_proto_seq_view(s.subrange(0, s.len() - 1)).push(method_descriptor_proto_view(s[s.len() - 1]))
    }
}

/// The view of a `MethodDescriptorProto` with no field set.
pub open spec fn method_descriptor_proto_default() -> MethodDescriptorProtoView {
    MethodDescriptorProtoView {
        name: None,
        input_type: None,
        output_type: None,
        options: None,
        client_streaming: None,
        server_streaming: None,
        unknown_fields: Seq::empty(),
    }
}

impl View for MethodDescriptorProto {
    type V = MethodDescriptorProtoView;

    open spec fn view(&self) -> MethodDescriptorProtoView {
        method_descriptor_proto_view(*self)
    }
}

impl Default for MethodDescriptorProto {
    /// A message with no field set.
    fn default() -> (r: MethodDescriptorProto)
        ensures
            r@ == method_descriptor_proto_default(),
    {
        let r = MethodDescriptorProto {
            name: None,
            input_type: None,
            output_type: None,
            options: None,
            client_streaming: None,
            server_streaming: None,
            unknown_fields: UnknownFieldSet::new(),
        };
        proof {
            assert(r@ =~= method_descriptor_proto_default());
        }
        r
    }
}

impl MethodDescriptorProto {
    /// Gets the `name` field, or its default, the empty string.
    pub fn name(&self) -> (r: &str)
        ensures
            r@ == text_or_empty(self@.name),
    {
        proof {
            reveal_strlit("");
        }
        match &self.name {
            Some(s) => s.as_str(),
            None => "",
        }
    }

    /// Gets the `name` field if it is set.
    pub fn name_option(&self) -> (r: Option<&String>)
        ensures
            opt_ref_view(r) == self@.name,
    {
        self.name.as_ref()
    }

    /// Gets the `name` field for changing it, setting it to its type's default first if it
    /// is not set.
    pub fn name_mut(&mut self) -> (r: &mut String)
        ensures
            (*r)@ == old(self)@.name.unwrap_or(Seq::<char>::empty()),
            final(self)@ == (MethodDescriptorProtoView { name: Some((*final(r))@), ..old(self)@ }),
    {
        self.name.get_or_insert(String::new())
    }

    /// Returns whether the `name` field is set.
    pub fn has_name(&self) -> (r: bool)
        ensures
            r == self@.name is Some,
    {
        self.name.is_some()
    }

    /// Sets the `name` field.
    pub fn set_name(&mut self, value: String)
        ensures
            final(self)@ == (MethodDescriptorProtoView { name: Some(value@), ..old(self)@ }),
    {
        self.name = Some(value);
    }

    /// Takes the `name` field out, leaving it unset.
    pub fn take_name(&mut self) -> (r: Option<String>)
        ensures
            opt_view(r) == old(self)@.name,
            final(self)@ == (MethodDescriptorProtoView { name: None, ..old(self)@ }),
    {
        self.name.take()
    }

    /// Clears the `name` field, leaving it unset.
    pub fn clear_name(&mut self)
        ensures
            final(self)@ == (MethodDescriptorProtoView { name: None, ..old(self)@ }),
    {
        self.name = None;
    }

    /// Gets the `input_type` field, or its default, the empty string.
    pub fn input_type(&self) -> (r: &str)
        ensures
            r@ == text_or_empty(self@.input_type),
    {
        proof {
            reveal_strlit("");
        }
        match &self.input_type {
            Some(s) => s.as_str(),
            None => "",
        }
    }

    /// Gets the `input_type` field if it is set.
    pub fn input_type_option(&self) -> (r: Option<&String>)
        ensures
            opt_ref_view(r) == self@.input_type,
    {
        self.input_type.as_ref()
    }

    /// Gets the `input_type` field for changing it, setting it to its type's default first if it
    /// is not set.
    pub fn input_type_mut(&mut self) -> (r: &mut String)
        ensures
            (*r)@ == old(self)@.input_type.unwrap_or(Seq::<char>::empty()),
            final(self)@ == (MethodDescriptorProtoView { input_type: Some((*final(r))@), ..old(self)@ }),
    {
        self.input_type.get_or_insert(String::new())
    }

    /// Returns whether the `input_type` field is set.
    pub fn has_input_type(&self) -> (r: bool)
        ensures
            r == self@.input_type is Some,
    {
        self.input_type.is_some()
    }

    /// Sets the `input_type` field.
    pub fn set_input_type(&mut self, value: String)
        ensures
            final(self)@ == (MethodDescriptorProtoView { input_type: Some(value@), ..old(self)@ }),
    {
        self.input_type = Some(value);
    }

    /// Takes the `input_type` field out, leaving it unset.
    pub fn take_input_type(&mut self) -> (r: Option<String>)
        ensures
            opt_view(r) == old(self)@.input_type,
            final(self)@ == (MethodDescriptorProtoView { input_type: None, ..old(self)@ }),
    {
        self.input_type.take()
    }

    /// Clears the `input_type` field, leaving it unset.
    pub fn clear_input_type(&mut self)
        ensures
            final(self)@ == (MethodDescriptorProtoView { input_type: None, ..old(self)@ }),
    {
        self.input_type = None;
    }

    /// Gets the `output_type` field, or its default, the empty string.
    pub fn output_type(&self) -> (r: &str)
        ensures
            r@ == text_or_empty(self@.output_type),
    {
        proof {
            reveal_strlit("");
        }
        match &self.output_type {
            Some(s) => s.as_str(),
            None => "",
        }
    }

    /// Gets the `output_type` field if it is set.
    pub fn output_type_option(&self) -> (r: Option<&String>)
        ensures
            opt_ref_view(r) == self@.output_type,
    {
        self.output_type.as_ref()
    }

    /// Gets the `output_type` field for changing it, setting it to its type's default first if it
    /// is not set.
    pub fn output_type_mut(&mut self) -> (r: &mut String)
        ensures
            (*r)@ == old(self)@.output_type.unwrap_or(Seq::<char>::empty()),
            final(self)@ == (MethodDescriptorProtoView { output_type: Some((*final(r))@), ..old(self)@ }),
    {
        self.output_type.get_or_insert(String::new())
    }

    /// Returns whether the `output_type` field is set.
    pub fn has_output_type(&self) -> (r: bool)
        ensures
            r == self@.output_type is Some,
    {
        self.output_type.is_some()
    }

    /// Sets the `output_type` field.
    pub fn set_output_type(&mut self, value: String)
        ensures
            final(self)@ == (MethodDescriptorProtoView { output_type: Some(value@), ..old(self)@ }),
    {
        self.output_type = Some(value);
    }

    /// Takes the `output_type` field out, leaving it unset.
    pub fn take_output_type(&mut self) -> (r: Option<String>)
        ensures
            opt_view(r) == old(self)@.output_type,
            final(self)@ == (MethodDescriptorProtoView { output_type: None, ..old(self)@ }),
    {
        self.output_type.take()
    }

    /// Clears the `output_type` field, leaving it unset.
    pub fn clear_output_type(&mut self)
        ensures
            final(self)@ == (MethodDescriptorProtoView { output_type: None, ..old(self)@ }),
    {
        self.output_type = None;
    }

    /// Gets the `options` field if it is set.
    pub fn options_option(&self) -> (r: Option<&MethodOptions>)
        ensures
            opt_ref_view(r) == self@.options,
    {
        self.options.as_ref()
    }

    /// Gets the `options` field for changing it, setting it to its type's default first if it
    /// is not set.
    pub fn options_mut(&mut self) -> (r: &mut MethodOptions)
        ensures
            (*r)@ == old(self)@.options.unwrap_or(method_options_default()),
            final(self)@ == (MethodDescriptorProtoView { options: Some((*final(r))@), ..old(self)@ }),
    {
        self.options.get_or_insert(MethodOptions::default())
    }

    /// Returns whether the `options` field is set.
    pub fn has_options(&self) -> (r: bool)
        ensures
            r == self@.options is Some,
    {
        self.options.is_some()
    }

    /// Sets the `options` field.
    pub fn set_options(&mut self, value: MethodOptions)
        ensures
            final(self)@ == (MethodDescriptorProtoView { options: Some(value@), ..old(self)@ }),
    {
        self.options = Some(value);
    }

    /// Takes the `options` field out, leaving it unset.
    pub fn take_options(&mut self) -> (r: Option<MethodOptions>)
        ensures
            opt_view(r) == old(self)@.options,
            final(self)@ == (MethodDescriptorProtoView { options: None, ..old(self)@ }),
    {
        self.options.take()
    }

    /// Clears the `options` field, leaving it unset.
    pub fn clear_options(&mut self)
        ensures
            final(self)@ == (MethodDescriptorProtoView { options: None, ..old(self)@ }),
    {
        self.options = None;
    }

    /// Gets the `client_streaming` field, or its default, `false`.
    pub fn client_streaming(&self) -> (r: bool)
        ensures
            r == self@.client_streaming.unwrap_or(false),
    {
        match self.client_streaming {
            Some(v) => v,
            None => false,
        }
    }

    /// Gets the `client_streaming` field if it is set.
    pub fn client_streaming_option(&self) -> (r: Option<&bool>)
        ensures
            opt_ref_view(r) == self@.client_streaming,
    {
        self.client_streaming.as_ref()
    }

    /// Gets the `client_streaming` field for changing it, setting it to its type's default first if it
    /// is not set.
    pub fn client_streaming_mut(&mut self) -> (r: &mut bool)
        ensures
            (*r)@ == old(self)@.client_streaming.unwrap_or(false),
            final(self)@ == (MethodDescriptorProtoView { client_streaming: Some((*final(r))@), ..old(self)@ }),
    {
        self.client_streaming.get_or_insert(false)
    }

    /// Returns whether the `client_streaming` field is set.
    pub fn has_client_streaming(&self) -> (r: bool)
        ensures
            r == self@.client_streaming is Some,
    {
        self.client_streaming.is_some()
    }

    /// Sets the `client_streaming` field.
    pub fn set_client_streaming(&mut self, value: bool)
        ensures
            final(self)@ == (MethodDescriptorProtoView { client_streaming: Some(value@), ..old(self)@ }),
    {
        self.client_streaming = Some(value);
    }

    /// Takes the `client_streaming` field out, leaving it unset.
    pub fn take_client_streaming(&mut self) -> (r: Option<bool>)
        ensures
            opt_view(r) == old(self)@.client_streaming,
            final(self)@ == (MethodDescriptorProtoView { client_streaming: None, ..old(self)@ }),
    {
        self.client_streaming.take()
    }

    /// Clears the `client_streaming` field, leaving it unset.
    pub fn clear_client_streaming(&mut self)
        ensures
            final(self)@ == (MethodDescriptorProtoView { client_streaming: None, ..old(self)@ }),
    {
        self.client_streaming = None;
    }

    /// Gets the `server_streaming` field, or its default, `false`.
    pub fn server_streaming(&self) -> (r: bool)
        ensures
            r == self@.server_streaming.unwrap_or(false),
    {
        match self.server_streaming {
            Some(v) => v,
            None => false,
        }
    }

    /// Gets the `server_streaming` field if it is set.
    pub fn server_streaming_option(&self) -> (r: Option<&bool>)
        ensures
            opt_ref_view(r) == self@.server_streaming,
    {
        self.server_streaming.as_ref()
    }

    /// Gets the `server_streaming` field for changing it, setting it to its type's default first if it
    /// is not set.
    pub fn server_streaming_mut(&mut self) -> (r: &mut bool)
        ensures
            (*r)@ == old(self)@.server_streaming.unwrap_or(false),
            final(self)@ == (MethodDescriptorProtoView { server_streaming: Some((*final(r))@), ..old(self)@ }),
    {
        self.server_streaming.get_or_insert(false)
    }

    /// Returns whether the `server_streaming` field is set.
    pub fn has_server_streaming(&self) -> (r: bool)
        ensures
            r == self@.server_streaming is Some,
    {
        self.server_streaming.is_some()
    }

    /// Sets the `server_streaming` field.
    pub fn set_server_streaming(&mut self, value: bool)
        ensures
            final(self)@ == (MethodDescriptorProtoView { server_streaming: Some(value@), ..old(self)@ }),
    {
        self.server_streaming = Some(value);
    }

    /// Takes the `server_streaming` field out, leaving it unset.
    pub fn take_server_streaming(&mut self) -> (r: Option<bool>)
        ensures
            opt_view(r) == old(self)@.server_streaming,
            final(self)@ == (MethodDescriptorProtoView { server_streaming: None, ..old(self)@ }),
    {
        self.server_streaming.take()
    }

    /// Clears the `server_streaming` field, leaving it unset.
    pub fn clear_server_streaming(&mut self)
        ensures
            final(self)@ == (MethodDescriptorProtoView { server_streaming: None, ..old(self)@ }),
    {
        self.server_streaming = None;
    }
}

/// The parts a `MethodDescriptorProto` is written as: its fields that are set, in field number order, then its
/// unknown fields.
#[verifier::opaque]
pub open spec fn method_descriptor_proto_parts(v: MethodDescriptorProtoView) -> Seq<(bool, Seq<u8>)>
{
    opt_field_parts::<raw::String>(1u32, v.name) + (opt_field_parts::<raw::String>(2u32, v.input_type) + (opt_field_parts::<raw::String>(3u32, v.output_type) + (method_options_opt_parts(4u32, v.options) + (opt_field_parts::<raw::Bool>(5u32, v.client_streaming) + (opt_field_parts::<raw::Bool>(6u32, v.server_streaming) + (set_parts(v.unknown_fields)))))))
}

/// The parts the `MethodDescriptorProto` values of a repeated field with field number `num` are written as:
/// for each, its tag, its length and its parts.
pub open spec fn method_descriptor_proto_seq_parts(num: u32, ys: Seq<MethodDescriptorProtoView>) -> Seq<(bool, Seq<u8>)>
    decreases ys,
{
    if ys.len() == 0 {
        Seq::empty()
    } else {
        method_descriptor_proto_seq_parts(num, ys.subrange(0, ys.len() - 1)) + entry_parts(num, method_descriptor_proto_parts(ys[ys.len() - 1]))
    }
}

/// What reading the field with tag value `t` from the front of `rest` into `v` gives: the
/// number of bytes read and the message after, or the error.
pub open spec fn method_descriptor_proto_field_read(v: MethodDescriptorProtoView, t: u32, rest: Seq<u8>, depth: nat, limit: nat, skip: bool, eg: Option<Tag>) -> ReadResult<(int, MethodDescriptorProtoView)>
{
    if t == 10u32 {
        match <raw::String as Value>::decoding(rest) { Ok((m, x)) => Ok((m, MethodDescriptorProtoView { name: Some(x), ..v })), Err(e) => Err(e) }
    } else if t == 18u32 {
        match <raw::String as Value>::decoding(rest) { Ok((m, x)) => Ok((m, MethodDescriptorProtoView { input_type: Some(x), ..v })), Err(e) => Err(e) }
    } else if t == 26u32 {
        match <raw::String as Value>::decoding(rest) { Ok((m, x)) => Ok((m, MethodDescriptorProtoView { output_type: Some(x), ..v })), Err(e) => Err(e) }
    } else if t == 34u32 {
        match length_delimited_read(rest) { Err(e) => Err(e), Ok((m, b)) => if depth >= limit { Err(ReadError::RecursionLimitExceeded) } else { match method_options_merged(match v.options { Some(y) => y, None => method_options_default() }, b, depth + 1, limit, skip, eg) { Ok(y) => Ok((m, MethodDescriptorProtoView { options: Some(y), ..v })), Err(e) => Err(e) } } }
    } else if t == 40u32 {
        match <raw::Bool as Value>::decoding(rest) { Ok((m, x)) => Ok((m, MethodDescriptorProtoView { client_streaming: Some(x), ..v })), Err(e) => Err(e) }
    } else if t == 48u32 {
        match <raw::Bool as Value>::decoding(rest) { Ok((m, x)) => Ok((m, MethodDescriptorProtoView { server_streaming: Some(x), ..v })), Err(e) => Err(e) }
    } else {
        match unknown_field_read(v.unknown_fields, t, rest, depth, limit, skip, eg) {
            Ok((m, u)) => Ok((m, MethodDescriptorProtoView { unknown_fields: u, ..v })),
            Err(e) => Err(e),
        }
    }
}

/// What reading all of `s` into `v` as `MethodDescriptorProto` fields gives: the message after, or the error.
/// `depth` and `limit` are the reader's depth and recursion limit, `skip` whether it skips
/// unknown fields, and `eg` the end tag of the group it is in.
pub open spec fn method_descriptor_proto_merged(v: MethodDescriptorProtoView, s: Seq<u8>, depth: nat, limit: nat, skip: bool, eg: Option<Tag>) -> ReadResult<MethodDescriptorProtoView>
    decreases s.len(),
{
    if s.len() == 0 {
        Ok(v)
    } else {
        match varint_read(s) {
            Err(e) => Err(e),
            Ok((n, w)) => if n < 1 || n > s.len() {
                Err(eof())
            } else {
                match method_descriptor_proto_field_read(v, w as u32, s.skip(n), depth, limit, skip, eg) {
                    Err(e) => Err(e),
                    Ok((m, v2)) => if m < 0 || n + m > s.len() {
                        Err(eof())
                    } else {
                        method_descriptor_proto_merged(v2, s.skip(n + m), depth, limit, skip, eg)
                    },
                }
            },
        }
    }
}

/// The views of a run of `MethodDescriptorProto` values, value by value.
pub proof fn lemma_method_descriptor_proto_seq_view(s: Seq<MethodDescriptorProto>)
    ensures
        method_descriptor_proto_seq_view(s).len() == s.len(),
        forall|i: int| 0 <= i < s.len() ==> #[trigger] method_descriptor_proto_seq_view(s)[i] == method_descriptor_proto_view(s[i]),
    decreases s.len(),
{
    if s.len() > 0 {
        lemma_method_descriptor_proto_seq_view(s.subrange(0, s.len() - 1));
        assert forall|i: int| 0 <= i < s.len() implies #[trigger] method_descriptor_proto_seq_view(s)[i] == method_descriptor_proto_view(s[i]) by {
            if i < s.len() - 1 {
                assert(s.subrange(0, s.len() - 1)[i] == s[i]);
            }
        }
    }
}

/// The parts of two runs of `MethodDescriptorProto` values are those of the first, then the second.
proof fn lemma_method_descriptor_proto_seq_parts_append(num: u32, a: Seq<MethodDescriptorProtoView>, b: Seq<MethodDescriptorProtoView>)
    ensures
        method_descriptor_proto_seq_parts(num, a + b) == method_descriptor_proto_seq_parts(num, a) + method_descriptor_proto_seq_parts(num, b),
    decreases b.len(),
{
    if b.len() == 0 {
        assert(a + b =~= a);
        assert(method_descriptor_proto_seq_parts(num, a) + method_descriptor_proto_seq_parts(num, b) =~= method_descriptor_proto_seq_parts(num, a));
    } else {
        let ab = a + b;
        assert(ab.subrange(0, ab.len() - 1) =~= a + b.subrange(0, b.len() - 1));
        assert(ab[ab.len() - 1] == b[b.len() - 1]);
        lemma_method_descriptor_proto_seq_parts_append(num, a, b.subrange(0, b.len() - 1));
        assert(method_descriptor_proto_seq_parts(num, a + b) =~= method_descriptor_proto_seq_parts(num, a) + method_descriptor_proto_seq_parts(num, b));
    }
}

/// The parts of the first `i + 1` values of a run are those of the first `i`, then the entry
/// of value `i`; and those of the whole run are those of the first `i + 1`, then the rest.
proof fn lemma_method_descriptor_proto_seq_parts_step(num: u32, ys: Seq<MethodDescriptorProtoView>, i: int)
    requires
        0 <= i < ys.len(),
    ensures
        method_descriptor_proto_seq_parts(num, ys.take(i + 1)) == method_descriptor_proto_seq_parts(num, ys.take(i)) + entry_parts(num, method_descriptor_proto_parts(ys[i])),
        method_descriptor_proto_seq_parts(num, ys) == method_descriptor_proto_seq_parts(num, ys.take(i + 1)) + method_descriptor_proto_seq_parts(num, ys.skip(i + 1)),
{
    assert(ys.take(i + 1).subrange(0, i) =~= ys.take(i));
    assert(ys.take(i + 1)[i] == ys[i]);
    lemma_method_descriptor_proto_seq_parts_append(num, ys.take(i + 1), ys.skip(i + 1));
    assert(ys.take(i + 1) + ys.skip(i + 1) =~= ys);
}

/// The parts of `MethodDescriptorProto` values are those of the first value's entry, then those of the others.
proof fn lemma_method_descriptor_proto_seq_parts_front(num: u32, ys: Seq<MethodDescriptorProtoView>)
    requires
        ys.len() > 0,
    ensures
        method_descriptor_proto_seq_parts(num, ys) == entry_parts(num, method_descriptor_proto_parts(ys[0])) + method_descriptor_proto_seq_parts(num, ys.drop_first()),
{
    let one = seq![ys[0]];
    lemma_method_descriptor_proto_seq_parts_append(num, one, ys.drop_first());
    assert(one + ys.drop_first() =~= ys);
    assert(one.subrange(0, 0) =~= Seq::<MethodDescriptorProtoView>::empty());
    assert(method_descriptor_proto_seq_parts(num, Seq::<MethodDescriptorProtoView>::empty()) =~= Seq::<(bool, Seq<u8>)>::empty());
    assert(one[0] == ys[0]);
    assert(method_descriptor_proto_seq_parts(num, one) =~= entry_parts(num, method_descriptor_proto_parts(ys[0])));
}

/// Adds the size of the `MethodDescriptorProto` values of a repeated field with field number `num`.
fn method_descriptor_proto_values_size(vs: &Vec<MethodDescriptorProto>, builder: LengthBuilder, num: FieldNumber) -> (r: Option<LengthBuilder>)
    ensures
        size_added(builder@ as int, parts_encodable(method_descriptor_proto_seq_parts(num@, method_descriptor_proto_seq_view(vs@))), parts_bytes(method_descriptor_proto_seq_parts(num@, method_descriptor_proto_seq_view(vs@))).len() as int, r),
{
    let ghost ys = method_descriptor_proto_seq_view(vs@);
    proof {
        lemma_method_descriptor_proto_seq_view(vs@);
        assert(ys.take(0) =~= Seq::<MethodDescriptorProtoView>::empty());
    }
    let mut b = builder;
    let mut i: usize = 0;
    while i < vs.len()
        invariant
            ys == method_descriptor_proto_seq_view(vs@),
            ys.len() == vs@.len(),
            forall|k: int| 0 <= k < vs@.len() ==> #[trigger] ys[k] == method_descriptor_proto_view(vs@[k]),
            i <= vs@.len(),
            size_added(builder@ as int, parts_encodable(method_descriptor_proto_seq_parts(num@, ys.take(i as int))), parts_bytes(method_descriptor_proto_seq_parts(num@, ys.take(i as int))).len() as int, Some(b)),
        decreases vs@.len() - i,
    {
        let ghost y = ys[i as int];
        let ghost done = method_descriptor_proto_seq_parts(num@, ys.take(i as int));
        let ghost cur = entry_parts(num@, method_descriptor_proto_parts(y));
        let ghost rest = method_descriptor_proto_seq_parts(num@, ys.skip(i + 1));
        proof {
            lemma_method_descriptor_proto_seq_parts_step(num@, ys, i as int);
        }
        let len = vs[i].calculate_size();
        let r = add_entry_size(b, num, len, Ghost(method_descriptor_proto_parts(y)));
        proof {
            lemma_size_chain(builder@ as int, done, cur, Some(b), r);
        }
        b = match r {
            Some(b1) => b1,
            None => {
                proof {
                    lemma_size_prefix(builder@ as int, done + cur, rest);
                }
                return None;
            },
        };
        i = i + 1;
    }
    proof {
        assert(ys.take(i as int) =~= ys);
    }
    Some(b)
}

/// Writes the `MethodDescriptorProto` values of a repeated field with field number `num`: for each, its tag,
/// its length and its fields.
fn write_method_descriptor_proto_values(vs: &Vec<MethodDescriptorProto>, output: &mut CodedWriter, num: FieldNumber) -> (r: WriteResult)
    ensures
        (final(output).written(), r) == parts_written(old(output).written(), old(output).capacity(), method_descriptor_proto_seq_parts(num@, method_descriptor_proto_seq_view(vs@))),
        final(output).capacity() == old(output).capacity(),
        (*final(final(output).target()))@ == (*final(old(output).target()))@,
{
    let ghost ys = method_descriptor_proto_seq_view(vs@);
    let ghost start = output.written();
    let ghost cap = output.capacity();
    proof {
        lemma_method_descriptor_proto_seq_view(vs@);
        assert(ys.take(0) =~= Seq::<MethodDescriptorProtoView>::empty());
    }
    let mut i: usize = 0;
    while i < vs.len()
        invariant
            ys == method_descriptor_proto_seq_view(vs@),
            ys.len() == vs@.len(),
            forall|k: int| 0 <= k < vs@.len() ==> #[trigger] ys[k] == method_descriptor_proto_view(vs@[k]),
            i <= vs@.len(),
            start == old(output).written(),
            cap == old(output).capacity(),
            output.capacity() == cap,
            (*final(output.target()))@ == (*final(old(output).target()))@,
            parts_written(start, cap, method_descriptor_proto_seq_parts(num@, ys.take(i as int))).0 == output.written(),
            parts_written(start, cap, method_descriptor_proto_seq_parts(num@, ys.take(i as int))).1 is Ok,
        decreases vs@.len() - i,
    {
        let ghost y = ys[i as int];
        let ghost done = method_descriptor_proto_seq_parts(num@, ys.take(i as int));
        let ghost head = entry_head(num@, method_descriptor_proto_parts(y));
        let ghost cur = head + method_descriptor_proto_parts(y);
        let ghost rest = method_descriptor_proto_seq_parts(num@, ys.skip(i + 1));
        let ghost w0 = output.written();
        proof {
            lemma_method_descriptor_proto_seq_parts_step(num@, ys, i as int);
            lemma_parts_written_append(start, cap, done, cur);
            lemma_parts_written_append(start, cap, done + cur, rest);
            lemma_parts_written_append(w0, cap, head, method_descriptor_proto_parts(y));
            reveal_with_fuel(parts_written, 3);
            assert(head.drop_first().drop_first() =~= Seq::<(bool, Seq<u8>)>::empty());
        }
        match output.write_tag(Tag::new(num, WireType::LengthDelimited)) {
            Ok(()) => {},
            Err(e) => return Err(e),
        }
        let len = match vs[i].calculate_size() {
            Some(len) => len,
            None => return Err(WriteError::ValueTooLarge),
        };
        match output.write_length(len) {
            Ok(()) => {},
            Err(e) => return Err(e),
        }
        match vs[i].write_to(output) {
            Ok(()) => {},
            Err(e) => return Err(e),
        }
        i = i + 1;
    }
    proof {
        assert(ys.take(i as int) =~= ys);
        lemma_ok_unit(parts_written(start, cap, method_descriptor_proto_seq_parts(num@, ys)).1);
    }
    Ok(())
}

/// Reads a `MethodDescriptorProto` from the reader as a length delimited value, merging it into `this`, one
/// level deeper.
fn merge_method_descriptor_proto_delimited(this: &mut MethodDescriptorProto, input: &mut CodedReader) -> (r: ReadResult<()>)
    ensures
        match length_delimited_read(old(input).available()) {
            Err(e) => r == Err::<(), ReadError>(e) && same_config(*old(input), *final(input)),
            Ok((m, b)) => if old(input).depth() >= old(input).recursion_limit() {
                r == Err::<(), ReadError>(ReadError::RecursionLimitExceeded) && same_config(*old(input), *final(input))
            } else {
                match method_descriptor_proto_merged(old(this)@, b, old(input).depth() + 1, old(input).recursion_limit(), skips(*old(input)), old(input).end_group_view()) {
                    Ok(y) => r is Ok && final(this)@ == y && final(input).position() == old(input).position() + m
                        && same_state(*old(input), *final(input)),
                    Err(e) => r == Err::<(), ReadError>(e) && same_config(*old(input), *final(input)),
                }
            },
        },
{
    let rem0 = input.remaining();
    let ghost s = input.available();
    let ghost start = *input;
    let length = match input.read_length() {
        Ok(l) => l,
        Err(e) => return Err(e),
    };
    let rem1 = input.remaining();
    let ghost n0 = input.position() - start.position();
    proof {
        lemma_varint_read_len(s);
        assert(input.available() =~= s.skip(n0));
    }
    let previous = match input.push_length(length) {
        Ok(p) => p,
        Err(e) => return Err(e),
    };
    let rem2 = input.remaining();
    let ghost b = s.subrange(n0, n0 + length@);
    proof {
        assert(input.available() =~= b);
        assert(length_delimited_read(s) == Ok::<(int, Seq<u8>), ReadError>((n0 + length@, b)));
    }
    let ghost pushed = *input;
    match input.increment_recursion_count() {
        Ok(()) => {},
        Err(e) => {
            input.pop_length(previous);
            return Err(e);
        },
    }
    let r = this.merge_from(input);
    let rem3 = input.remaining();
    input.decrement_recursion_count();
    input.pop_length(previous);
    r
}

impl MethodDescriptorProto {
    /// Gets the unknown fields of the message.
    pub fn unknown_fields(&self) -> (r: &UnknownFieldSet)
        ensures
            r@ == self@.unknown_fields,
    {
        &self.unknown_fields
    }

    /// Gets the unknown fields of the message for changing them.
    pub fn unknown_fields_mut(&mut self) -> (r: &mut UnknownFieldSet)
        ensures
            (*r)@ == old(self)@.unknown_fields,
            final(self)@ == (MethodDescriptorProtoView { unknown_fields: (*final(r))@, ..old(self)@ }),
    {
        &mut self.unknown_fields
    }

    /// Returns whether the message is initialized: whether all its required fields are set.
    pub fn is_initialized(&self) -> (r: bool)
        ensures
            r,
    {
        true
    }

    /// Calculates the size of the message as it is written: `None` if a part cannot be
    /// written or the size does not fit in a length.
    #[verifier::spinoff_prover]
    #[verifier::rlimit(100)]
    pub fn calculate_size(&self) -> (r: Option<Length>)
        ensures
            opt_length(r) == parts_size(method_descriptor_proto_parts(self@)),
    {
        let ghost v = self@;
        let ghost all = method_descriptor_proto_parts(v);
        let b0 = LengthBuilder::new();
        let ghost d0 = Seq::<(bool, Seq<u8>)>::empty();
        proof {
            reveal(method_descriptor_proto_parts);
            assert(all =~= d0 + all);
        }
        let ghost p1 = opt_field_parts::<raw::String>(1u32, v.name);
        let ghost rest1 = opt_field_parts::<raw::String>(2u32, v.input_type) + (opt_field_parts::<raw::String>(3u32, v.output_type) + (method_options_opt_parts(4u32, v.options) + (opt_field_parts::<raw::Bool>(5u32, v.client_streaming) + (opt_field_parts::<raw::Bool>(6u32, v.server_streaming) + (set_parts(v.unknown_fields))))));
        proof {
            assert(self@.name == opt_inner_view::<raw::String>(self.name));
            assert(all == d0 + (p1 + rest1));
            assert(d0 + (p1 + rest1) =~= d0 + p1 + rest1);
        }
        let r1 = add_opt_field::<raw::String>(b0, FieldNumber::new_unchecked(1), &self.name);
        proof {
            lemma_size_chain(0, d0, p1, Some(b0), r1);
            if r1 is None {
                lemma_size_chain(0, d0 + p1, rest1, r1, r1);
            }
        }
        let b1 = match r1 {
            Some(b) => b,
            None => return None,
        };
        let ghost d1 = d0 + p1;
        let ghost p2 = opt_field_parts::<raw::String>(2u32, v.input_type);
        let ghost rest2 = opt_field_parts::<raw::String>(3u32, v.output_type) + (method_options_opt_parts(4u32, v.options) + (opt_field_parts::<raw::Bool>(5u32, v.client_streaming) + (opt_field_parts::<raw::Bool>(6u32, v.server_streaming) + (set_parts(v.unknown_fields)))));
        proof {
            assert(self@.input_type == opt_inner_view::<raw::String>(self.input_type));
            assert(all == d1 + (p2 + rest2));
            assert(d1 + (p2 + rest2) =~= d1 + p2 + rest2);
        }
        let r2 = add_opt_field::<raw::String>(b1, FieldNumber::new_unchecked(2), &self.input_type);
        proof {
            lemma_size_chain(0, d1, p2, Some(b1), r2);
            if r2 is None {
                lemma_size_chain(0, d1 + p2, rest2, r2, r2);
            }
        }
        let b2 = match r2 {
            Some(b) => b,
            None => return None,
        };
        let ghost d2 = d1 + p2;
        let ghost p3 = opt_field_parts::<raw::String>(3u32, v.output_type);
        let ghost rest3 = method_options_opt_parts(4u32, v.options) + (opt_field_parts::<raw::Bool>(5u32, v.client_streaming) + (opt_field_parts::<raw::Bool>(6u32, v.server_streaming) + (set_parts(v.unknown_fields))));
        proof {
            assert(self@.output_type == opt_inner_view::<raw::String>(self.output_type));
            assert(all == d2 + (p3 + rest3));
            assert(d2 + (p3 + rest3) =~= d2 + p3 + rest3);
        }
        let r3 = add_opt_field::<raw::String>(b2, FieldNumber::new_unchecked(3), &self.output_type);
        proof {
            lemma_size_chain(0, d2, p3, Some(b2), r3);
            if r3 is None {
                lemma_size_chain(0, d2 + p3, rest3, r3, r3);
            }
        }
        let b3 = match r3 {
            Some(b) => b,
            None => return None,
        };
        let ghost d3 = d2 + p3;
        let ghost p4 = method_options_opt_parts(4u32, v.options);
        let ghost rest4 = opt_field_parts::<raw::Bool>(5u32, v.client_streaming) + (opt_field_parts::<raw::Bool>(6u32, v.server_streaming) + (set_parts(v.unknown_fields)));
        proof {
            assert(self@.options == opt_view(self.options));
            assert(all == d3 + (p4 + rest4));
            assert(d3 + (p4 + rest4) =~= d3 + p4 + rest4);
        }
        let r4 = method_options_opt_size(&self.options, b3, FieldNumber::new_unchecked(4));
        proof {
            lemma_size_chain(0, d3, p4, Some(b3), r4);
            if r4 is None {
                lemma_size_chain(0, d3 + p4, rest4, r4, r4);
            }
        }
        let b4 = match r4 {
            Some(b) => b,
            None => return None,
        };
        let ghost d4 = d3 + p4;
        let ghost p5 = opt_field_parts::<raw::Bool>(5u32, v.client_streaming);
        let ghost rest5 = opt_field_parts::<raw::Bool>(6u32, v.server_streaming) + (set_parts(v.unknown_fields));
        proof {
            assert(self@.client_streaming == opt_inner_view::<raw::Bool>(self.client_streaming));
            assert(all == d4 + (p5 + rest5));
            assert(d4 + (p5 + rest5) =~= d4 + p5 + rest5);
        }
        let r5 = add_opt_field::<raw::Bool>(b4, FieldNumber::new_unchecked(5), &self.client_streaming);
        proof {
            lemma_size_chain(0, d4, p5, Some(b4), r5);
            if r5 is None {
                lemma_size_chain(0, d4 + p5, rest5, r5, r5);
            }
        }
        let b5 = match r5 {
            Some(b) => b,
            None => return None,
        };
        let ghost d5 = d4 + p5;
        let ghost p6 = opt_field_parts::<raw::Bool>(6u32, v.server_streaming);
        let ghost rest6 = set_parts(v.unknown_fields);
        proof {
            assert(self@.server_streaming == opt_inner_view::<raw::Bool>(self.server_streaming));
            assert(all == d5 + (p6 + rest6));
            assert(d5 + (p6 + rest6) =~= d5 + p6 + rest6);
        }
        let r6 = add_opt_field::<raw::Bool>(b5, FieldNumber::new_unchecked(6), &self.server_streaming);
        proof {
            lemma_size_chain(0, d5, p6, Some(b5), r6);
            if r6 is None {
                lemma_size_chain(0, d5 + p6, rest6, r6, r6);
            }
        }
        let b6 = match r6 {
            Some(b) => b,
            None => return None,
        };
        let ghost d6 = d5 + p6;
        let ghost p7 = set_parts(v.unknown_fields);
        let ghost rest7 = Seq::<(bool, Seq<u8>)>::empty();
        proof {
            assert(all == d6 + p7);
            assert(p7 + rest7 =~= p7);
            assert(d6 + (p7 + rest7) =~= d6 + p7 + rest7);
        }
        let r7 = self.unknown_fields.calculate_size(b6);
        proof {
            lemma_size_chain(0, d6, p7, Some(b6), r7);
            if r7 is None {
                lemma_size_chain(0, d6 + p7, rest7, r7, r7);
            }
        }
        let b7 = match r7 {
            Some(b) => b,
            None => return None,
        };
        let ghost d7 = d6 + p7;
        Some(b7.build())
    }

    /// Writes the message to the writer: its fields that are set, in field number order, then
    /// its unknown fields.
    #[verifier::spinoff_prover]
    #[verifier::rlimit(100)]
    pub fn write_to(&self, output: &mut CodedWriter) -> (r: WriteResult)
        ensures
            (final(output).written(), r) == parts_written(old(output).written(), old(output).capacity(), method_descriptor_proto_parts(self@)),
            final(output).capacity() == old(output).capacity(),
            (*final(final(output).target()))@ == (*final(old(output).target()))@,
    {
        let ghost v = self@;
        let ghost all = method_descriptor_proto_parts(v);
        let ghost start = output.written();
        let ghost cap = output.capacity();
        let ghost d0 = Seq::<(bool, Seq<u8>)>::empty();
        proof {
            reveal(method_descriptor_proto_parts);
            assert(all =~= d0 + all);
        }
        let ghost p1 = opt_field_parts::<raw::String>(1u32, v.name);
        let ghost rest1 = opt_field_parts::<raw::String>(2u32, v.input_type) + (opt_field_parts::<raw::String>(3u32, v.output_type) + (method_options_opt_parts(4u32, v.options) + (opt_field_parts::<raw::Bool>(5u32, v.client_streaming) + (opt_field_parts::<raw::Bool>(6u32, v.server_streaming) + (set_parts(v.unknown_fields))))));
        proof {
            assert(self@.name == opt_inner_view::<raw::String>(self.name));
            assert(all == d0 + (p1 + rest1));
            assert(d0 + (p1 + rest1) =~= d0 + p1 + rest1);
            lemma_parts_written_append(start, cap, d0, p1);
            lemma_parts_written_append(start, cap, d0 + p1, rest1);
        }
        match write_opt_field::<raw::String>(output, FieldNumber::new_unchecked(1), &self.name) {
            Ok(()) => {},
            Err(e) => return Err(e),
        }
        let ghost d1 = d0 + p1;
        let ghost p2 = opt_field_parts::<raw::String>(2u32, v.input_type);
        let ghost rest2 = opt_field_parts::<raw::String>(3u32, v.output_type) + (method_options_opt_parts(4u32, v.options) + (opt_field_parts::<raw::Bool>(5u32, v.client_streaming) + (opt_field_parts::<raw::Bool>(6u32, v.server_streaming) + (set_parts(v.unknown_fields)))));
        proof {
            assert(self@.input_type == opt_inner_view::<raw::String>(self.input_type));
            assert(all == d1 + (p2 + rest2));
            assert(d1 + (p2 + rest2) =~= d1 + p2 + rest2);
            lemma_parts_written_append(start, cap, d1, p2);
            lemma_parts_written_append(start, cap, d1 + p2, rest2);
        }
        match write_opt_field::<raw::String>(output, FieldNumber::new_unchecked(2), &self.input_type) {
            Ok(()) => {},
            Err(e) => return Err(e),
        }
        let ghost d2 = d1 + p2;
        let ghost p3 = opt_field_parts::<raw::String>(3u32, v.output_type);
        let ghost rest3 = method_options_opt_parts(4u32, v.options) + (opt_field_parts::<raw::Bool>(5u32, v.client_streaming) + (opt_field_parts::<raw::Bool>(6u32, v.server_streaming) + (set_parts(v.unknown_fields))));
        proof {
            assert(self@.output_type == opt_inner_view::<raw::String>(self.output_type));
            assert(all == d2 + (p3 + rest3));
            assert(d2 + (p3 + rest3) =~= d2 + p3 + rest3);
            lemma_parts_written_append(start, cap, d2, p3);
            lemma_parts_written_append(start, cap, d2 + p3, rest3);
        }
        match write_opt_field::<raw::String>(output, FieldNumber::new_unchecked(3), &self.output_type) {
            Ok(()) => {},
            Err(e) => return Err(e),
        }
        let ghost d3 = d2 + p3;
        let ghost p4 = method_options_opt_parts(4u32, v.options);
        let ghost rest4 = opt_field_parts::<raw::Bool>(5u32, v.client_streaming) + (opt_field_parts::<raw::Bool>(6u32, v.server_streaming) + (set_parts(v.unknown_fields)));
        proof {
            assert(self@.options == opt_view(self.options));
            assert(all == d3 + (p4 + rest4));
            assert(d3 + (p4 + rest4) =~= d3 + p4 + rest4);
            lemma_parts_written_append(start, cap, d3, p4);
            lemma_parts_written_append(start, cap, d3 + p4, rest4);
        }
        match write_method_options_opt(&self.options, output, FieldNumber::new_unchecked(4)) {
            Ok(()) => {},
            Err(e) => return Err(e),
        }
        let ghost d4 = d3 + p4;
        let ghost p5 = opt_field_parts::<raw::Bool>(5u32, v.client_streaming);
        let ghost rest5 = opt_field_parts::<raw::Bool>(6u32, v.server_streaming) + (set_parts(v.unknown_fields));
        proof {
            assert(self@.client_streaming == opt_inner_view::<raw::Bool>(self.client_streaming));
            assert(all == d4 + (p5 + rest5));
            assert(d4 + (p5 + rest5) =~= d4 + p5 + rest5);
            lemma_parts_written_append(start, cap, d4, p5);
            lemma_parts_written_append(start, cap, d4 + p5, rest5);
        }
        match write_opt_field::<raw::Bool>(output, FieldNumber::new_unchecked(5), &self.client_streaming) {
            Ok(()) => {},
            Err(e) => return Err(e),
        }
        let ghost d5 = d4 + p5;
        let ghost p6 = opt_field_parts::<raw::Bool>(6u32, v.server_streaming);
        let ghost rest6 = set_parts(v.unknown_fields);
        proof {
            assert(self@.server_streaming == opt_inner_view::<raw::Bool>(self.server_streaming));
            assert(all == d5 + (p6 + rest6));
            assert(d5 + (p6 + rest6) =~= d5 + p6 + rest6);
            lemma_parts_written_append(start, cap, d5, p6);
            lemma_parts_written_append(start, cap, d5 + p6, rest6);
        }
        match write_opt_field::<raw::Bool>(output, FieldNumber::new_unchecked(6), &self.server_streaming) {
            Ok(()) => {},
            Err(e) => return Err(e),
        }
        let ghost d6 = d5 + p6;
        let ghost p7 = set_parts(v.unknown_fields);
        let ghost rest7 = Seq::<(bool, Seq<u8>)>::empty();
        proof {
            assert(all == d6 + p7);
            assert(p7 + rest7 =~= p7);
            assert(d6 + (p7 + rest7) =~= d6 + p7 + rest7);
            lemma_parts_written_append(start, cap, d6, p7);
            lemma_parts_written_append(start, cap, d6 + p7, rest7);
        }
        match self.unknown_fields.write_to(output) {
            Ok(()) => {},
            Err(e) => return Err(e),
        }
        let ghost d7 = d6 + p7;
        proof {
            assert(all =~= d7 + Seq::<(bool, Seq<u8>)>::empty());
            assert(all == d7);
            lemma_ok_unit(parts_written(start, cap, all).1);
        }
        Ok(())
    }

    /// Reads the value of the field whose tag value `t` was just read into the message.
    #[verifier::spinoff_prover]
    fn merge_field(&mut self, t: u32, input: &mut CodedReader) -> (r: ReadResult<()>)
        ensures
            match method_descriptor_proto_field_read(old(self)@, t, old(input).available(), old(input).depth(), old(input).recursion_limit(), skips(*old(input)), old(input).end_group_view()) {
                Ok((m, v2)) => r is Ok && final(self)@ == v2 && m >= 0 && final(input).position()
                    == old(input).position() + m && same_state(*old(input), *final(input)),
                Err(e) => r == Err::<(), ReadError>(e) && same_config(*old(input), *final(input)),
            },
    {
        let rem0 = input.remaining();
        let ghost rest = input.available();
        if t == 10u32 {
            proof {
                <raw::String as Value>::lemma_decoding_len(rest);
            }
            input.set_last_tag(Some(Tag::new(FieldNumber::new_unchecked(1), WireType::LengthDelimited)));
            match <raw::String as Value>::merge_from(self.name.get_or_insert(std::string::String::new()), input) {
                Ok(()) => {},
                Err(e) => return Err(e),
            }
        } else if t == 18u32 {
            proof {
                <raw::String as Value>::lemma_decoding_len(rest);
            }
            input.set_last_tag(Some(Tag::new(FieldNumber::new_unchecked(2), WireType::LengthDelimited)));
            match <raw::String as Value>::merge_from(self.input_type.get_or_insert(std::string::String::new()), input) {
                Ok(()) => {},
                Err(e) => return Err(e),
            }
        } else if t == 26u32 {
            proof {
                <raw::String as Value>::lemma_decoding_len(rest);
            }
            input.set_last_tag(Some(Tag::new(FieldNumber::new_unchecked(3), WireType::LengthDelimited)));
            match <raw::String as Value>::merge_from(self.output_type.get_or_insert(std::string::String::new()), input) {
                Ok(()) => {},
                Err(e) => return Err(e),
            }
        } else if t == 34u32 {
            proof {
                lemma_length_delimited_read_len(rest);
            }
            input.set_last_tag(Some(Tag::new(FieldNumber::new_unchecked(4), WireType::LengthDelimited)));
            match &mut self.options {
                Some(y) => match merge_method_options_delimited(y, input) {
                    Ok(()) => {},
                    Err(e) => return Err(e),
                },
                None => {
                    let mut y = MethodOptions::default();
                    match merge_method_options_delimited(&mut y, input) {
                        Ok(()) => {},
                        Err(e) => return Err(e),
                    }
                    self.options = Some(y);
                },
            }
        } else if t == 40u32 {
            proof {
                <raw::Bool as Value>::lemma_decoding_len(rest);
            }
            input.set_last_tag(Some(Tag::new(FieldNumber::new_unchecked(5), WireType::Varint)));
            match <raw::Bool as Value>::merge_from(self.client_streaming.get_or_insert(false), input) {
                Ok(()) => {},
                Err(e) => return Err(e),
            }
        } else if t == 48u32 {
            proof {
                <raw::Bool as Value>::lemma_decoding_len(rest);
            }
            input.set_last_tag(Some(Tag::new(FieldNumber::new_unchecked(6), WireType::Varint)));
            match <raw::Bool as Value>::merge_from(self.server_streaming.get_or_insert(false), input) {
                Ok(()) => {},
                Err(e) => return Err(e),
            }
        } else {
            let tag = match Tag::try_from(t) {
                Ok(tag) => tag,
                Err(_) => return Err(ReadError::InvalidTag(t)),
            };
            input.set_last_tag(Some(tag));
            match self.unknown_fields.try_add_field_from(input) {
                Ok(TryRead::Consumed) => {},
                Ok(TryRead::Yielded) => match input.skip() {
                    Ok(()) => {},
                    Err(e) => return Err(e),
                },
                Err(e) => return Err(e),
            }
        }
        let rem1 = input.remaining();
        Ok(())
    }

    /// Merges the message with fields read from the reader, up to its limit. Scalar fields
    /// read replace those set, message fields are merged, repeated fields are added to,
    /// and unknown fields are stored or skipped as the reader says. On an error the message
    /// may hold some of the fields read before it.
    #[verifier::spinoff_prover]
    #[verifier::rlimit(50)]
    pub fn merge_from(&mut self, input: &mut CodedReader) -> (r: ReadResult<()>)
        ensures
            merge_outcome(method_descriptor_proto_merged(old(self)@, old(input).available(), old(input).depth(), old(input).recursion_limit(), skips(*old(input)), old(input).end_group_view()), final(self)@, *old(input), *final(input), r),
    {
        let rem0 = input.remaining();
        let ghost start = *input;
        let ghost total = method_descriptor_proto_merged(self@, input.available(), input.depth(), input.recursion_limit(), skips(*input), input.end_group_view());
        loop
            invariant
                start == *old(input),
                same_state(start, *input),
                0 <= start.position() <= input.position(),
                input.limit_end() <= input.input().len(),
                total == method_descriptor_proto_merged(old(self)@, start.available(), start.depth(), start.recursion_limit(), skips(start), start.end_group_view()),
                total == method_descriptor_proto_merged(self@, input.available(), start.depth(), start.recursion_limit(), skips(start), start.end_group_view()),
            decreases input.available().len(),
        {
            let ghost s = input.available();
            let ghost before = *input;
            let ghost v = self@;
            let t = match input.read_field() {
                Ok(Some(t)) => t,
                Ok(None) => return Ok(()),
                Err(e) => return Err(e),
            };
            let rem1 = input.remaining();
            let ghost n = input.position() - before.position();
            proof {
                lemma_varint_read_len(s);
                assert(input.available() =~= s.skip(n));
            }
            let ghost mid = *input;
            match self.merge_field(t, input) {
                Ok(()) => {},
                Err(e) => return Err(e),
            }
            let rem2 = input.remaining();
            proof {
                let m = input.position() - mid.position();
                assert(input.available() =~= s.skip(n + m));
            }
        }
    }
}

impl crate::Message for MethodDescriptorProto {
    open spec fn merged(v: MethodDescriptorProtoView, s: Seq<u8>, depth: nat, limit: nat, skip: bool, eg: Option<Tag>) -> ReadResult<MethodDescriptorProtoView> {
        method_descriptor_proto_merged(v, s, depth, limit, skip, eg)
    }

    open spec fn parts(v: MethodDescriptorProtoView) -> Seq<(bool, Seq<u8>)> {
        method_descriptor_proto_parts(v)
    }

    open spec fn initialized(v: MethodDescriptorProtoView) -> bool {
        true
    }

    open spec fn unknown_fields_of(v: MethodDescriptorProtoView) -> Seq<(u32, Seq<FieldValue>)> {
        v.unknown_fields
    }

    open spec fn with_unknown_fields(v: MethodDescriptorProtoView, u: Seq<(u32, Seq<FieldValue>)>) -> MethodDescriptorProtoView {
        MethodDescriptorProtoView { unknown_fields: u, ..v }
    }

    fn merge_from(&mut self, input: &mut CodedReader) -> (r: ReadResult<()>) {
        MethodDescriptorProto::merge_from(self, input)
    }

    fn calculate_size(&self) -> (r: Option<Length>) {
        MethodDescriptorProto::calculate_size(self)
    }

    fn write_to(&self, output: &mut CodedWriter) -> (r: WriteResult) {
        MethodDescriptorProto::write_to(self, output)
    }

    fn is_initialized(&self) -> (r: bool) {
        MethodDescriptorProto::is_initialized(self)
    }

    fn unknown_fields(&self) -> (r: &UnknownFieldSet) {
        MethodDescriptorProto::unknown_fields(self)
    }

    fn unknown_fields_mut(&mut self) -> (r: &mut UnknownFieldSet) {
        MethodDescriptorProto::unknown_fields_mut(self)
    }
}

impl DebugMessage for MethodDescriptorProto {
    open spec fn spec_full_name() -> Seq<char> {
        "google.protobuf.MethodDescriptorProto"@
    }

    open spec fn spec_name() -> Seq<char> {
        "MethodDescriptorProto"@
    }

    fn full_name() -> (r: &'static str) {
        "google.protobuf.MethodDescriptorProto"
    }

    fn name() -> (r: &'static str) {
        "MethodDescriptorProto"
    }
}

/// Whether `t` is the tag of a field a `MethodDescriptorProto` reads.
pub open spec fn method_descriptor_proto_known_tag(t: u32) -> bool {
    t == 10u32 || t == 18u32 || t == 26u32 || t == 34u32 || t == 40u32 || t == 48u32
}

/// Whether a `MethodDescriptorProto` is read back as it is written, at nesting depth `depth` of a reader with
/// recursion limit `limit`: its messages are read back as written one level deeper, within
/// the limit; and its unknown fields are read back as written, none with the tag of one of
/// its fields.
pub open spec fn method_descriptor_proto_roundtrips(v: MethodDescriptorProtoView, depth: nat, limit: nat) -> bool
{
    &&& (v.options matches Some(y) ==> depth < limit && method_options_roundtrips(y, depth + 1, limit))
    &&& set_readable(v.unknown_fields)
    &&& forall|k: int| 0 <= k < set_pairs(v.unknown_fields).len() ==> !method_descriptor_proto_known_tag(tag_value(
        #[trigger] set_pairs(v.unknown_fields)[k].0,
        field_value_wire_type(set_pairs(v.unknown_fields)[k].1),
    ))
}

/// Reading a `MethodDescriptorProto` field whose tag is read from the front of `s` and whose value is read after
/// it continues with the rest of `s`.
proof fn lemma_method_descriptor_proto_step(v: MethodDescriptorProtoView, s: Seq<u8>, k: int, t: u32, m: int, v2: MethodDescriptorProtoView, depth: nat, limit: nat)
    requires
        varint_read(s) == Ok::<(int, u64), ReadError>((k, t as u64)),
        1 <= k <= s.len(),
        method_descriptor_proto_field_read(v, t, s.skip(k), depth, limit, false, None) == Ok::<(int, MethodDescriptorProtoView), ReadError>((m, v2)),
        0 <= m,
        k + m <= s.len(),
    ensures
        method_descriptor_proto_merged(v, s, depth, limit, false, None) == method_descriptor_proto_merged(v2, s.skip(k + m), depth, limit, false, None),
{
    assert((t as u64) as u32 == t);
}

/// Reading the field `name` of a `MethodDescriptorProto` written from `o` sets it to `o`, whatever it held; nothing
/// is written, and nothing changes, for `None`.
proof fn lemma_method_descriptor_proto_read_name(d: MethodDescriptorProtoView, o: Option<Seq<char>>, rest: Seq<u8>, depth: nat, limit: nat)
    requires
        parts_encodable(opt_field_parts::<raw::String>(1u32, o)),
    ensures
        method_descriptor_proto_merged(d, parts_bytes(opt_field_parts::<raw::String>(1u32, o)) + rest, depth, limit, false, None) == method_descriptor_proto_merged(if o is Some { MethodDescriptorProtoView { name: o, ..d } } else { d }, rest, depth, limit, false, None),
{
    match o {
        None => {
            assert(parts_bytes(opt_field_parts::<raw::String>(1u32, o)) + rest =~= rest);
        },
        Some(x) => {
            let p = field_parts::<raw::String>(1u32, x);
            assert(p[1].0);
            let s = parts_bytes(p) + rest;
            lemma_field_bytes_read::<raw::String>(1u32, x, rest);
            lemma_tag_value(1u32, WireType::LengthDelimited);
            let hl = parts_bytes(p).len() as int;
            let k = varint_len(10u64) as int;
            let v2 = MethodDescriptorProtoView { name: Some(x), ..d };
            lemma_method_descriptor_proto_step(d, s, k, 10u32, hl - k, v2, depth, limit);
        },
    }
}

/// Reading the field `input_type` of a `MethodDescriptorProto` written from `o` sets it to `o`, whatever it held; nothing
/// is written, and nothing changes, for `None`.
proof fn lemma_method_descriptor_proto_read_input_type(d: MethodDescriptorProtoView, o: Option<Seq<char>>, rest: Seq<u8>, depth: nat, limit: nat)
    requires
        parts_encodable(opt_field_parts::<raw::String>(2u32, o)),
    ensures
        method_descriptor_proto_merged(d, parts_bytes(opt_field_parts::<raw::String>(2u32, o)) + rest, depth, limit, false, None) == method_descriptor_proto_merged(if o is Some { MethodDescriptorProtoView { input_type: o, ..d } } else { d }, rest, depth, limit, false, None),
{
    match o {
        None => {
            assert(parts_bytes(opt_field_parts::<raw::String>(2u32, o)) + rest =~= rest);
        },
        Some(x) => {
            let p = field_parts::<raw::String>(2u32, x);
            assert(p[1].0);
            let s = parts_bytes(p) + rest;
            lemma_field_bytes_read::<raw::String>(2u32, x, rest);
            lemma_tag_value(2u32, WireType::LengthDelimited);
            let hl = parts_bytes(p).len() as int;
            let k = varint_len(18u64) as int;
            let v2 = MethodDescriptorProtoView { input_type: Some(x), ..d };
            lemma_method_descriptor_proto_step(d, s, k, 18u32, hl - k, v2, depth, limit);
        },
    }
}

/// Reading the field `output_type` of a `MethodDescriptorProto` written from `o` sets it to `o`, whatever it held; nothing
/// is written, and nothing changes, for `None`.
proof fn lemma_method_descriptor_proto_read_output_type(d: MethodDescriptorProtoView, o: Option<Seq<char>>, rest: Seq<u8>, depth: nat, limit: nat)
    requires
        parts_encodable(opt_field_parts::<raw::String>(3u32, o)),
    ensures
        method_descriptor_proto_merged(d, parts_bytes(opt_field_parts::<raw::String>(3u32, o)) + rest, depth, limit, false, None) == method_descriptor_proto_merged(if o is Some { MethodDescriptorProtoView { output_type: o, ..d } } else { d }, rest, depth, limit, false, None),
{
    match o {
        None => {
            assert(parts_bytes(opt_field_parts::<raw::String>(3u32, o)) + rest =~= rest);
        },
        Some(x) => {
            let p = field_parts::<raw::String>(3u32, x);
            assert(p[1].0);
            let s = parts_bytes(p) + rest;
            lemma_field_bytes_read::<raw::String>(3u32, x, rest);
            lemma_tag_value(3u32, WireType::LengthDelimited);
            let hl = parts_bytes(p).len() as int;
            let k = varint_len(26u64) as int;
            let v2 = MethodDescriptorProtoView { output_type: Some(x), ..d };
            lemma_method_descriptor_proto_step(d, s, k, 26u32, hl - k, v2, depth, limit);
        },
    }
}

/// Reading the field `options` of a `MethodDescriptorProto` written from `o`, where the message does not hold it,
/// sets it to `o`; nothing is written, and nothing changes, for `None`.
#[verifier::rlimit(40)]
proof fn lemma_method_descriptor_proto_read_options(d: MethodDescriptorProtoView, o: Option<MethodOptionsView>, rest: Seq<u8>, depth: nat, limit: nat)
    requires
        o is Some ==> d.options is None,
        parts_encodable(method_options_opt_parts(4u32, o)),
        o matches Some(y) ==> depth < limit && method_options_roundtrips(y, depth + 1, limit),
    ensures
        method_descriptor_proto_merged(d, parts_bytes(method_options_opt_parts(4u32, o)) + rest, depth, limit, false, None) == method_descriptor_proto_merged(if o is Some { MethodDescriptorProtoView { options: o, ..d } } else { d }, rest, depth, limit, false, None),
{
    match o {
        None => {
            assert(parts_bytes(method_options_opt_parts(4u32, o)) + rest =~= rest);
        },
        Some(y) => {
            let ep = entry_parts(4u32, method_options_parts(y));
            assert(ep[1].0);
            let s = parts_bytes(ep) + rest;
            lemma_entry_bytes_read(4u32, method_options_parts(y), rest);
            lemma_tag_value(4u32, WireType::LengthDelimited);
            lemma_parts_encodable_two(entry_head(4u32, method_options_parts(y)), method_options_parts(y));
            lemma_method_options_roundtrip(y, depth + 1, limit);
            let hl = parts_bytes(ep).len() as int;
            let k = varint_len(34u64) as int;
            let v2 = MethodDescriptorProtoView { options: Some(y), ..d };
            lemma_method_descriptor_proto_step(d, s, k, 34u32, hl - k, v2, depth, limit);
            assert(s.skip(hl) == rest);
        },
    }
}

/// Reading the field `options` of a `MethodDescriptorProto` merges what is read into the value the message already
/// holds there (or into a default value, where it holds none): the field read from the bytes
/// written from `y` becomes the existing value with the bytes of `y` merged into it, and the
/// rest is read into the message so changed. Past the recursion limit the read is refused.
#[verifier::rlimit(40)]
pub proof fn lemma_method_descriptor_proto_merge_options(d: MethodDescriptorProtoView, y: MethodOptionsView, rest: Seq<u8>, depth: nat, limit: nat)
    requires
        parts_encodable(method_options_opt_parts(4u32, Some(y))),
    ensures
        method_descriptor_proto_merged(d, parts_bytes(method_options_opt_parts(4u32, Some(y))) + rest, depth, limit, false, None) == if depth >= limit {
            Err::<MethodDescriptorProtoView, ReadError>(ReadError::RecursionLimitExceeded)
        } else {
            match method_options_merged(match d.options { Some(o) => o, None => method_options_default() }, parts_bytes(method_options_parts(y)), depth + 1, limit, false, None) {
                Ok(z) => method_descriptor_proto_merged(MethodDescriptorProtoView { options: Some(z), ..d }, rest, depth, limit, false, None),
                Err(e) => Err(e),
            }
        },
{
    let ep = entry_parts(4u32, method_options_parts(y));
    assert(method_options_opt_parts(4u32, Some(y)) == ep);
    assert(ep[1].0);
    let s = parts_bytes(ep) + rest;
    lemma_entry_bytes_read(4u32, method_options_parts(y), rest);
    lemma_tag_value(4u32, WireType::LengthDelimited);
    let hl = parts_bytes(ep).len() as int;
    let k = varint_len(34u64) as int;
    assert((34u64 as u64) as u32 == 34u32);
    if depth < limit {
        match method_options_merged(match d.options { Some(o) => o, None => method_options_default() }, parts_bytes(method_options_parts(y)), depth + 1, limit, false, None) {
            Ok(z) => {
                let v2 = MethodDescriptorProtoView { options: Some(z), ..d };
                lemma_method_descriptor_proto_step(d, s, k, 34u32, hl - k, v2, depth, limit);
                assert(s.skip(hl) == rest);
            },
            Err(e) => {},
        }
    }
}

/// Merging the bytes written for the field `options` of a `MethodDescriptorProto` from `y` into `d` merges `y` into
/// the value `d` holds there (or into a default value, where it holds none), as merging
/// messages does, where `y` is read back as written and the existing value holds none of the
/// message fields `y` holds.
pub proof fn lemma_method_descriptor_proto_merge_options_written(d: MethodDescriptorProtoView, y: MethodOptionsView, rest: Seq<u8>, depth: nat, limit: nat)
    requires
        parts_encodable(method_options_opt_parts(4u32, Some(y))),
        depth < limit,
        method_options_roundtrips(y, depth + 1, limit),
    ensures
        method_descriptor_proto_merged(d, parts_bytes(method_options_opt_parts(4u32, Some(y))) + rest, depth, limit, false, None) == method_descriptor_proto_merged(MethodDescriptorProtoView { options: Some(method_options_merge_view(match d.options { Some(o) => o, None => method_options_default() }, y)), ..d }, rest, depth, limit, false, None),
{
    lemma_method_descriptor_proto_merge_options(d, y, rest, depth, limit);
    lemma_parts_encodable_two(entry_head(4u32, method_options_parts(y)), method_options_parts(y));
    assert(method_options_opt_parts(4u32, Some(y)) == entry_parts(4u32, method_options_parts(y)));
    lemma_method_options_merge_written(match d.options { Some(o) => o, None => method_options_default() }, y, depth + 1, limit);
}

/// Reading the field `client_streaming` of a `MethodDescriptorProto` written from `o` sets it to `o`, whatever it held; nothing
/// is written, and nothing changes, for `None`.
proof fn lemma_method_descriptor_proto_read_client_streaming(d: MethodDescriptorProtoView, o: Option<bool>, rest: Seq<u8>, depth: nat, limit: nat)
    requires
        parts_encodable(opt_field_parts::<raw::Bool>(5u32, o)),
    ensures
        method_descriptor_proto_merged(d, parts_bytes(opt_field_parts::<raw::Bool>(5u32, o)) + rest, depth, limit, false, None) == method_descriptor_proto_merged(if o is Some { MethodDescriptorProtoView { client_streaming: o, ..d } } else { d }, rest, depth, limit, false, None),
{
    match o {
        None => {
            assert(parts_bytes(opt_field_parts::<raw::Bool>(5u32, o)) + rest =~= rest);
        },
        Some(x) => {
            let p = field_parts::<raw::Bool>(5u32, x);
            assert(p[1].0);
            let s = parts_bytes(p) + rest;
            lemma_field_bytes_read::<raw::Bool>(5u32, x, rest);
            lemma_tag_value(5u32, WireType::Varint);
            let hl = parts_bytes(p).len() as int;
            let k = varint_len(40u64) as int;
            let v2 = MethodDescriptorProtoView { client_streaming: Some(x), ..d };
            lemma_method_descriptor_proto_step(d, s, k, 40u32, hl - k, v2, depth, limit);
        },
    }
}

/// Reading the field `server_streaming` of a `MethodDescriptorProto` written from `o` sets it to `o`, whatever it held; nothing
/// is written, and nothing changes, for `None`.
proof fn lemma_method_descriptor_proto_read_server_streaming(d: MethodDescriptorProtoView, o: Option<bool>, rest: Seq<u8>, depth: nat, limit: nat)
    requires
        parts_encodable(opt_field_parts::<raw::Bool>(6u32, o)),
    ensures
        method_descriptor_proto_merged(d, parts_bytes(opt_field_parts::<raw::Bool>(6u32, o)) + rest, depth, limit, false, None) == method_descriptor_proto_merged(if o is Some { MethodDescriptorProtoView { server_streaming: o, ..d } } else { d }, rest, depth, limit, false, None),
{
    match o {
        None => {
            assert(parts_bytes(opt_field_parts::<raw::Bool>(6u32, o)) + rest =~= rest);
        },
        Some(x) => {
            let p = field_parts::<raw::Bool>(6u32, x);
            assert(p[1].0);
            let s = parts_bytes(p) + rest;
            lemma_field_bytes_read::<raw::Bool>(6u32, x, rest);
            lemma_tag_value(6u32, WireType::Varint);
            let hl = parts_bytes(p).len() as int;
            let k = varint_len(48u64) as int;
            let v2 = MethodDescriptorProtoView { server_streaming: Some(x), ..d };
            lemma_method_descriptor_proto_step(d, s, k, 48u32, hl - k, v2, depth, limit);
        },
    }
}

/// Reading unknown field values written one after the other into a `MethodDescriptorProto`, none with the tag
/// of one of its fields, adds them to its unknown fields.
proof fn lemma_method_descriptor_proto_read_unknown(v: MethodDescriptorProtoView, ps: Seq<(u32, FieldValue)>, rest: Seq<u8>, depth: nat, limit: nat)
    requires
        forall|k: int| 0 <= k < ps.len() ==> value_readable(#[trigger] ps[k].0, ps[k].1) && !method_descriptor_proto_known_tag(
            tag_value(ps[k].0, field_value_wire_type(ps[k].1)),
        ),
    ensures
        method_descriptor_proto_merged(v, parts_bytes(pairs_parts(ps)) + rest, depth, limit, false, None) == method_descriptor_proto_merged(
            MethodDescriptorProtoView { unknown_fields: push_pairs(v.unknown_fields, ps), ..v },
            rest,
            depth, limit, false, None,
        ),
    decreases ps.len(),
{
    if ps.len() == 0 {
        assert(parts_bytes(pairs_parts(ps)) + rest =~= rest);
    } else {
        let n = ps[0].0;
        let fv = ps[0].1;
        let tail = ps.drop_first();
        assert forall|k: int| 0 <= k < tail.len() implies value_readable(#[trigger] tail[k].0, tail[k].1) && !method_descriptor_proto_known_tag(
            tag_value(tail[k].0, field_value_wire_type(tail[k].1)),
        ) by {
            assert(tail[k] == ps[k + 1]);
        }
        assert(value_readable(ps[0].0, ps[0].1));
        lemma_parts_bytes_append(field_value_parts(n, fv), pairs_parts(tail));
        let after = parts_bytes(pairs_parts(tail)) + rest;
        let s = parts_bytes(pairs_parts(ps)) + rest;
        assert(s =~= parts_bytes(field_value_parts(n, fv)) + after);
        lemma_read_value_bytes(n, fv, after);
        let t = tag_value(n, field_value_wire_type(fv));
        let hl = parts_bytes(field_value_parts(n, fv)).len() as int;
        let k = varint_len(t as u64) as int;
        let v2 = MethodDescriptorProtoView { unknown_fields: view_push(v.unknown_fields, n, fv), ..v };
        lemma_method_descriptor_proto_step(v, s, k, t, hl - k, v2, depth, limit);
        lemma_method_descriptor_proto_read_unknown(v2, tail, rest, depth, limit);
    }
}

/// The writability of the parts of a `MethodDescriptorProto` is that of each field's parts.
proof fn lemma_method_descriptor_proto_parts_encodable(v: MethodDescriptorProtoView)
    ensures
        parts_encodable(method_descriptor_proto_parts(v)) == (parts_encodable(opt_field_parts::<raw::String>(1u32, v.name)) && parts_encodable(opt_field_parts::<raw::String>(2u32, v.input_type)) && parts_encodable(opt_field_parts::<raw::String>(3u32, v.output_type)) && parts_encodable(method_options_opt_parts(4u32, v.options)) && parts_encodable(opt_field_parts::<raw::Bool>(5u32, v.client_streaming)) && parts_encodable(opt_field_parts::<raw::Bool>(6u32, v.server_streaming)) && parts_encodable(set_parts(v.unknown_fields))),
{
    reveal(method_descriptor_proto_parts);
    let p0 = opt_field_parts::<raw::String>(1u32, v.name);
    let p1 = opt_field_parts::<raw::String>(2u32, v.input_type);
    let p2 = opt_field_parts::<raw::String>(3u32, v.output_type);
    let p3 = method_options_opt_parts(4u32, v.options);
    let p4 = opt_field_parts::<raw::Bool>(5u32, v.client_streaming);
    let p5 = opt_field_parts::<raw::Bool>(6u32, v.server_streaming);
    let p6 = set_parts(v.unknown_fields);
    let q6 = p6;
    let q5 = p5 + q6;
    lemma_parts_encodable_two(p5, q6);
    let q4 = p4 + q5;
    lemma_parts_encodable_two(p4, q5);
    let q3 = p3 + q4;
    lemma_parts_encodable_two(p3, q4);
    let q2 = p2 + q3;
    lemma_parts_encodable_two(p2, q3);
    let q1 = p1 + q2;
    lemma_parts_encodable_two(p1, q2);
    let q0 = p0 + q1;
    lemma_parts_encodable_two(p0, q1);
    assert(method_descriptor_proto_parts(v) == q0);
}

/// The bytes of the parts of a `MethodDescriptorProto` are those of each field's parts, one after the other.
proof fn lemma_method_descriptor_proto_parts_bytes(v: MethodDescriptorProtoView)
    ensures
        parts_bytes(method_descriptor_proto_parts(v)) == parts_bytes(opt_field_parts::<raw::String>(1u32, v.name)) + (parts_bytes(opt_field_parts::<raw::String>(2u32, v.input_type)) + (parts_bytes(opt_field_parts::<raw::String>(3u32, v.output_type)) + (parts_bytes(method_options_opt_parts(4u32, v.options)) + (parts_bytes(opt_field_parts::<raw::Bool>(5u32, v.client_streaming)) + (parts_bytes(opt_field_parts::<raw::Bool>(6u32, v.server_streaming)) + parts_bytes(set_parts(v.unknown_fields))))))),
{
    reveal(method_descriptor_proto_parts);
    let p0 = opt_field_parts::<raw::String>(1u32, v.name);
    let p1 = opt_field_parts::<raw::String>(2u32, v.input_type);
    let p2 = opt_field_parts::<raw::String>(3u32, v.output_type);
    let p3 = method_options_opt_parts(4u32, v.options);
    let p4 = opt_field_parts::<raw::Bool>(5u32, v.client_streaming);
    let p5 = opt_field_parts::<raw::Bool>(6u32, v.server_streaming);
    let p6 = set_parts(v.unknown_fields);
    let q6 = p6;
    let q5 = p5 + q6;
    lemma_parts_bytes_append(p5, q6);
    let q4 = p4 + q5;
    lemma_parts_bytes_append(p4, q5);
    let q3 = p3 + q4;
    lemma_parts_bytes_append(p3, q4);
    let q2 = p2 + q3;
    lemma_parts_bytes_append(p2, q3);
    let q1 = p1 + q2;
    lemma_parts_bytes_append(p1, q2);
    let q0 = p0 + q1;
    lemma_parts_bytes_append(p0, q1);
    assert(method_descriptor_proto_parts(v) == q0);
}

/// The message a `MethodDescriptorProto` `d` becomes when `v` is merged into it: each field `v` holds once
/// replaces the one `d` holds, the values of each repeated field of `v` follow those of `d`,
/// and the unknown fields of `v` are added to those of `d`, field number by field number.
pub open spec fn method_descriptor_proto_merge_view(d: MethodDescriptorProtoView, v: MethodDescriptorProtoView) -> MethodDescriptorProtoView {
    MethodDescriptorProtoView { name: newer_or(v.name, d.name), input_type: newer_or(v.input_type, d.input_type), output_type: newer_or(v.output_type, d.output_type), options: newer_or(v.options, d.options), client_streaming: newer_or(v.client_streaming, d.client_streaming), server_streaming: newer_or(v.server_streaming, d.server_streaming), unknown_fields: view_merge(d.unknown_fields, v.unknown_fields) }
}

/// Reading the bytes of the parts of a `MethodDescriptorProto` `v`, field by field, into `d` merges `v` into `d`.
#[verifier::spinoff_prover]
#[verifier::rlimit(60)]
proof fn lemma_method_descriptor_proto_merge_all(d: MethodDescriptorProtoView, v: MethodDescriptorProtoView, depth: nat, limit: nat)
    requires
        parts_encodable(opt_field_parts::<raw::String>(1u32, v.name)),
        parts_encodable(opt_field_parts::<raw::String>(2u32, v.input_type)),
        parts_encodable(opt_field_parts::<raw::String>(3u32, v.output_type)),
        parts_encodable(method_options_opt_parts(4u32, v.options)),
        parts_encodable(opt_field_parts::<raw::Bool>(5u32, v.client_streaming)),
        parts_encodable(opt_field_parts::<raw::Bool>(6u32, v.server_streaming)),
        method_descriptor_proto_roundtrips(v, depth, limit),
        v.options is Some ==> d.options is None,
        parts_bytes(method_descriptor_proto_parts(v)) == parts_bytes(opt_field_parts::<raw::String>(1u32, v.name)) + (parts_bytes(opt_field_parts::<raw::String>(2u32, v.input_type)) + (parts_bytes(opt_field_parts::<raw::String>(3u32, v.output_type)) + (parts_bytes(method_options_opt_parts(4u32, v.options)) + (parts_bytes(opt_field_parts::<raw::Bool>(5u32, v.client_streaming)) + (parts_bytes(opt_field_parts::<raw::Bool>(6u32, v.server_streaming)) + parts_bytes(set_parts(v.unknown_fields))))))),
    ensures
        method_descriptor_proto_merged(d, parts_bytes(method_descriptor_proto_parts(v)), depth, limit, false, None) == Ok::<MethodDescriptorProtoView, ReadError>(method_descriptor_proto_merge_view(d, v)),
{
    let p0 = opt_field_parts::<raw::String>(1u32, v.name);
    let p1 = opt_field_parts::<raw::String>(2u32, v.input_type);
    let p2 = opt_field_parts::<raw::String>(3u32, v.output_type);
    let p3 = method_options_opt_parts(4u32, v.options);
    let p4 = opt_field_parts::<raw::Bool>(5u32, v.client_streaming);
    let p5 = opt_field_parts::<raw::Bool>(6u32, v.server_streaming);
    let p6 = set_parts(v.unknown_fields);
    let b0 = parts_bytes(p0);
    let b1 = parts_bytes(p1);
    let b2 = parts_bytes(p2);
    let b3 = parts_bytes(p3);
    let b4 = parts_bytes(p4);
    let b5 = parts_bytes(p5);
    let b6 = parts_bytes(p6);
    let r6 = b6;
    let r5 = b5 + r6;
    let r4 = b4 + r5;
    let r3 = b3 + r4;
    let r2 = b2 + r3;
    let r1 = b1 + r2;
    let r0 = b0 + r1;
    let d0 = d;
    let d1 = MethodDescriptorProtoView { name: newer_or(v.name, d.name), ..d0 };
    assert(method_descriptor_proto_merged(d0, r0, depth, limit, false, None) == method_descriptor_proto_merged(d1, r1, depth, limit, false, None)) by {
        lemma_method_descriptor_proto_read_name(d0, v.name, r1, depth, limit);
        assert((if v.name is Some { MethodDescriptorProtoView { name: v.name, ..d0 } } else { d0 }) == d1);
    }
    let d2 = MethodDescriptorProtoView { input_type: newer_or(v.input_type, d.input_type), ..d1 };
    assert(method_descriptor_proto_merged(d1, r1, depth, limit, false, None) == method_descriptor_proto_merged(d2, r2, depth, limit, false, None)) by {
        lemma_method_descriptor_proto_read_input_type(d1, v.input_type, r2, depth, limit);
        assert((if v.input_type is Some { MethodDescriptorProtoView { input_type: v.input_type, ..d1 } } else { d1 }) == d2);
    }
    let d3 = MethodDescriptorProtoView { output_type: newer_or(v.output_type, d.output_type), ..d2 };
    assert(method_descriptor_proto_merged(d2, r2, depth, limit, false, None) == method_descriptor_proto_merged(d3, r3, depth, limit, false, None)) by {
        lemma_method_descriptor_proto_read_output_type(d2, v.output_type, r3, depth, limit);
        assert((if v.output_type is Some { MethodDescriptorProtoView { output_type: v.output_type, ..d2 } } else { d2 }) == d3);
    }
    let d4 = MethodDescriptorProtoView { options: newer_or(v.options, d.options), ..d3 };
    assert(method_descriptor_proto_merged(d3, r3, depth, limit, false, None) == method_descriptor_proto_merged(d4, r4, depth, limit, false, None)) by {
        lemma_method_descriptor_proto_read_options(d3, v.options, r4, depth, limit);
        assert((if v.options is Some { MethodDescriptorProtoView { options: v.options, ..d3 } } else { d3 }) == d4);
    }
    let d5 = MethodDescriptorProtoView { client_streaming: newer_or(v.client_streaming, d.client_streaming), ..d4 };
    assert(method_descriptor_proto_merged(d4, r4, depth, limit, false, None) == method_descriptor_proto_merged(d5, r5, depth, limit, false, None)) by {
        lemma_method_descriptor_proto_read_client_streaming(d4, v.client_streaming, r5, depth, limit);
        assert((if v.client_streaming is Some { MethodDescriptorProtoView { client_streaming: v.client_streaming, ..d4 } } else { d4 }) == d5);
    }
    let d6 = MethodDescriptorProtoView { server_streaming: newer_or(v.server_streaming, d.server_streaming), ..d5 };
    assert(method_descriptor_proto_merged(d5, r5, depth, limit, false, None) == method_descriptor_proto_merged(d6, r6, depth, limit, false, None)) by {
        lemma_method_descriptor_proto_read_server_streaming(d5, v.server_streaming, r6, depth, limit);
        assert((if v.server_streaming is Some { MethodDescriptorProtoView { server_streaming: v.server_streaming, ..d5 } } else { d5 }) == d6);
    }
    let ps = set_pairs(v.unknown_fields);
    assert(method_descriptor_proto_merged(d6, r6, depth, limit, false, None) == Ok::<MethodDescriptorProtoView, ReadError>(method_descriptor_proto_merge_view(d, v))) by {
        lemma_set_pairs(v.unknown_fields, d.unknown_fields);
        lemma_entries_readable(v.unknown_fields);
        assert forall|k: int| 0 <= k < ps.len() implies value_readable(#[trigger] ps[k].0, ps[k].1) && !method_descriptor_proto_known_tag(
            tag_value(ps[k].0, field_value_wire_type(ps[k].1)),
        ) by {
            assert(!method_descriptor_proto_known_tag(tag_value(set_pairs(v.unknown_fields)[k].0, field_value_wire_type(set_pairs(v.unknown_fields)[k].1))));
        }
        lemma_method_descriptor_proto_read_unknown(d6, ps, Seq::empty(), depth, limit);
        assert(b6 + Seq::<u8>::empty() =~= b6);
        let dl = MethodDescriptorProtoView { unknown_fields: push_pairs(d6.unknown_fields, ps), ..d6 };
        assert(dl == method_descriptor_proto_merge_view(d, v));
    }
}

/// Reading the bytes of the parts of a `MethodDescriptorProto`, field by field, gives the message back.
proof fn lemma_method_descriptor_proto_read_all(v: MethodDescriptorProtoView, depth: nat, limit: nat)
    requires
        parts_encodable(opt_field_parts::<raw::String>(1u32, v.name)),
        parts_encodable(opt_field_parts::<raw::String>(2u32, v.input_type)),
        parts_encodable(opt_field_parts::<raw::String>(3u32, v.output_type)),
        parts_encodable(method_options_opt_parts(4u32, v.options)),
        parts_encodable(opt_field_parts::<raw::Bool>(5u32, v.client_streaming)),
        parts_encodable(opt_field_parts::<raw::Bool>(6u32, v.server_streaming)),
        method_descriptor_proto_roundtrips(v, depth, limit),
        parts_bytes(method_descriptor_proto_parts(v)) == parts_bytes(opt_field_parts::<raw::String>(1u32, v.name)) + (parts_bytes(opt_field_parts::<raw::String>(2u32, v.input_type)) + (parts_bytes(opt_field_parts::<raw::String>(3u32, v.output_type)) + (parts_bytes(method_options_opt_parts(4u32, v.options)) + (parts_bytes(opt_field_parts::<raw::Bool>(5u32, v.client_streaming)) + (parts_bytes(opt_field_parts::<raw::Bool>(6u32, v.server_streaming)) + parts_bytes(set_parts(v.unknown_fields))))))),
    ensures
        method_descriptor_proto_merged(method_descriptor_proto_default(), parts_bytes(method_descriptor_proto_parts(v)), depth, limit, false, None) == Ok::<MethodDescriptorProtoView, ReadError>(v),
{
    lemma_method_descriptor_proto_merge_all(method_descriptor_proto_default(), v, depth, limit);
    lemma_entries_readable(v.unknown_fields);
    lemma_merge_into_empty(v.unknown_fields);
    assert(method_descriptor_proto_merge_view(method_descriptor_proto_default(), v) == v);
}

/// Merging what a `MethodDescriptorProto` `v` writes into a message `d` merges `v` into `d`: each field `v`
/// holds replaces the one `d` holds, repeated values follow those `d` holds, and unknown fields
/// are added to those of `d`, where `d` holds none of the message fields `v` holds (those are
/// merged into each other), at nesting depth `depth` of a reader with recursion limit `limit`
/// that keeps unknown fields, outside any group, where `v` is read back as written.
pub proof fn lemma_method_descriptor_proto_merge_written(d: MethodDescriptorProtoView, v: MethodDescriptorProtoView, depth: nat, limit: nat)
    requires
        parts_encodable(method_descriptor_proto_parts(v)),
        method_descriptor_proto_roundtrips(v, depth, limit),
        v.options is Some ==> d.options is None,
    ensures
        method_descriptor_proto_merged(d, parts_bytes(method_descriptor_proto_parts(v)), depth, limit, false, None) == Ok::<MethodDescriptorProtoView, ReadError>(method_descriptor_proto_merge_view(d, v)),
{
    lemma_method_descriptor_proto_parts_encodable(v);
    lemma_method_descriptor_proto_parts_bytes(v);
    lemma_method_descriptor_proto_merge_all(d, v, depth, limit);
}

/// A `MethodDescriptorProto` is read back as it is written: merging the bytes of its parts into a default
/// message, at nesting depth `depth` of a reader with recursion limit `limit` that keeps
/// unknown fields, outside any group, gives the message back, where it is read back as written.
pub proof fn lemma_method_descriptor_proto_roundtrip(v: MethodDescriptorProtoView, depth: nat, limit: nat)
    requires
        parts_encodable(method_descriptor_proto_parts(v)),
        method_descriptor_proto_roundtrips(v, depth, limit),
    ensures
        method_descriptor_proto_merged(method_descriptor_proto_default(), parts_bytes(method_descriptor_proto_parts(v)), depth, limit, false, None) == Ok::<MethodDescriptorProtoView, ReadError>(v),
{
    lemma_method_descriptor_proto_parts_encodable(v);
    lemma_method_descriptor_proto_parts_bytes(v);
    lemma_method_descriptor_proto_read_all(v, depth, limit);
}

/// The `FileOptions` message of `descriptor.proto`.
#[derive(Clone, Debug)]
pub struct FileOptions {
    java_package: Option<String>,
    java_outer_classname: Option<String>,
    java_multiple_files: Option<bool>,
    java_generate_equals_and_hash: Option<bool>,
    java_string_check_utf8: Option<bool>,
    optimize_for: Option<OptimizeMode>,
    go_package: Option<String>,
    cc_generic_services: Option<bool>,
    java_generic_services: Option<bool>,
    py_generic_services: Option<bool>,
    php_generic_services: Option<bool>,
    deprecated: Option<bool>,
    cc_enable_arenas: Option<bool>,
    objc_class_prefix: Option<String>,
    csharp_namespace: Option<String>,
    swift_prefix: Option<String>,
    php_class_prefix: Option<String>,
    php_namespace: Option<String>,
    php_metadata_namespace: Option<String>,
    ruby_package: Option<String>,
    uninterpreted_option: RepeatedField<UninterpretedOption>,
    unknown_fields: UnknownFieldSet,
}

/// The view of a `FileOptions`: its fields, and its unknown fields.
pub struct FileOptionsView {
    /// The `java_package` field.
    pub java_package: Option<Seq<char>>,
    /// The `java_outer_classname` field.
    pub java_outer_classname: Option<Seq<char>>,
    /// The `java_multiple_files` field.
    pub java_multiple_files: Option<bool>,
    /// The `java_generate_equals_and_hash` field.
    pub java_generate_equals_and_hash: Option<bool>,
    /// The `java_string_check_utf8` field.
    pub java_string_check_utf8: Option<bool>,
    /// The `optimize_for` field.
    pub optimize_for: Option<i32>,
    /// The `go_package` field.
    pub go_package: Option<Seq<char>>,
    /// The `cc_generic_services` field.
    pub cc_generic_services: Option<bool>,
    /// The `java_generic_services` field.
    pub java_generic_services: Option<bool>,
    /// The `py_generic_services` field.
    pub py_generic_services: Option<bool>,
    /// The `php_generic_services` field.
    pub php_generic_services: Option<bool>,
    /// The `deprecated` field.
    pub deprecated: Option<bool>,
    /// The `cc_enable_arenas` field.
    pub cc_enable_arenas: Option<bool>,
    /// The `objc_class_prefix` field.
    pub objc_class_prefix: Option<Seq<char>>,
    /// The `csharp_namespace` field.
    pub csharp_namespace: Option<Seq<char>>,
    /// The `swift_prefix` field.
    pub swift_prefix: Option<Seq<char>>,
    /// The `php_class_prefix` field.
    pub php_class_prefix: Option<Seq<char>>,
    /// The `php_namespace` field.
    pub php_namespace: Option<Seq<char>>,
    /// The `php_metadata_namespace` field.
    pub php_metadata_namespace: Option<Seq<char>>,
    /// The `ruby_package` field.
    pub ruby_package: Option<Seq<char>>,
    /// The `uninterpreted_option` field.
    pub uninterpreted_option: Seq<UninterpretedOptionView>,
    /// The unknown fields.
    pub unknown_fields: Seq<(u32, Seq<FieldValue>)>,
}

/// The view of a `FileOptions` value.
pub closed spec fn file_options_view(m: FileOptions) -> FileOptionsView
{
    FileOptionsView {
        java_package: opt_view(m.java_package),
        java_outer_classname: opt_view(m.java_outer_classname),
        java_multiple_files: m.java_multiple_files,
        java_generate_equals_and_hash: m.java_generate_equals_and_hash,
        java_string_check_utf8: m.java_string_check_utf8,
        optimize_for: opt_view(m.optimize_for),
        go_package: opt_view(m.go_package),
        cc_generic_services: m.cc_generic_services,
        java_generic_services: m.java_generic_services,
        py_generic_services: m.py_generic_services,
        php_generic_services: m.php_generic_services,
        deprecated: m.deprecated,
        cc_enable_arenas: m.cc_enable_arenas,
        objc_class_prefix: opt_view(m.objc_class_prefix),
        csharp_namespace: opt_view(m.csharp_namespace),
        swift_prefix: opt_view(m.swift_prefix),
        php_class_prefix: opt_view(m.php_class_prefix),
        php_namespace: opt_view(m.php_namespace),
        php_metadata_namespace: opt_view(m.php_metadata_namespace),
        ruby_package: opt_view(m.ruby_package),
        uninterpreted_option: uninterpreted_option_seq_view(m.uninterpreted_option@),
        unknown_fields: m.unknown_fields@,
    }
}

/// The view of a `FileOptions` with no field set.
pub open spec fn file_options_default() -> FileOptionsView {
    FileOptionsView {
        java_package: None,
        java_outer_classname: None,
        java_multiple_files: None,
        java_generate_equals_and_hash: None,
        java_string_check_utf8: None,
        optimize_for: None,
        go_package: None,
        cc_generic_services: None,
        java_generic_services: None,
        py_generic_services: None,
        php_generic_services: None,
        deprecated: None,
        cc_enable_arenas: None,
        objc_class_prefix: None,
        csharp_namespace: None,
        swift_prefix: None,
        php_class_prefix: None,
        php_namespace: None,
        php_metadata_namespace: None,
        ruby_package: None,
        uninterpreted_option: Seq::empty(),
        unknown_fields: Seq::empty(),
    }
}

impl View for FileOptions {
    type V = FileOptionsView;

    open spec fn view(&self) -> FileOptionsView {
        file_options_view(*self)
    }
}

impl Default for FileOptions {
    /// A message with no field set.
    fn default() -> (r: FileOptions)
        ensures
            r@ == file_options_default(),
    {
        let r = FileOptions {
            java_package: None,
            java_outer_classname: None,
            java_multiple_files: None,
            java_generate_equals_and_hash: None,
            java_string_check_utf8: None,
            optimize_for: None,
            go_package: None,
            cc_generic_services: None,
            java_generic_services: None,
            py_generic_services: None,
            php_generic_services: None,
            deprecated: None,
            cc_enable_arenas: None,
            objc_class_prefix: None,
            csharp_namespace: None,
            swift_prefix: None,
            php_class_prefix: None,
            php_namespace: None,
            php_metadata_namespace: None,
            ruby_package: None,
            uninterpreted_option: Vec::new(),
            unknown_fields: UnknownFieldSet::new(),
        };
        proof {
            assert(uninterpreted_option_seq_view(r.uninterpreted_option@) =~= Seq::empty());
            assert(r@ =~= file_options_default());
        }
        r
    }
}

impl FileOptions {
    /// Gets the `java_package` field, or its default, the empty string.
    pub fn java_package(&self) -> (r: &str)
        ensures
            r@ == text_or_empty(self@.java_package),
    {
        proof {
            reveal_strlit("");
        }
        match &self.java_package {
            Some(s) => s.as_str(),
            None => "",
        }
    }

    /// Gets the `java_package` field if it is set.
    pub fn java_package_option(&self) -> (r: Option<&String>)
        ensures
            opt_ref_view(r) == self@.java_package,
    {
        self.java_package.as_ref()
    }

    /// Gets the `java_package` field for changing it, setting it to its type's default first if it
    /// is not set.
    pub fn java_package_mut(&mut self) -> (r: &mut String)
        ensures
            (*r)@ == old(self)@.java_package.unwrap_or(Seq::<char>::empty()),
            final(self)@ == (FileOptionsView { java_package: Some((*final(r))@), ..old(self)@ }),
    {
        self.java_package.get_or_insert(String::new())
    }

    /// Returns whether the `java_package` field is set.
    pub fn has_java_package(&self) -> (r: bool)
        ensures
            r == self@.java_package is Some,
    {
        self.java_package.is_some()
    }

    /// Sets the `java_package` field.
    pub fn set_java_package(&mut self, value: String)
        ensures
            final(self)@ == (FileOptionsView { java_package: Some(value@), ..old(self)@ }),
    {
        self.java_package = Some(value);
    }

    /// Takes the `java_package` field out, leaving it unset.
    pub fn take_java_package(&mut self) -> (r: Option<String>)
        ensures
            opt_view(r) == old(self)@.java_package,
            final(self)@ == (FileOptionsView { java_package: None, ..old(self)@ }),
    {
        self.java_package.take()
    }

    /// Clears the `java_package` field, leaving it unset.
    pub fn clear_java_package(&mut self)
        ensures
            final(self)@ == (FileOptionsView { java_package: None, ..old(self)@ }),
    {
        self.java_package = None;
    }

    /// Gets the `java_outer_classname` field, or its default, the empty string.
    pub fn java_outer_classname(&self) -> (r: &str)
        ensures
            r@ == text_or_empty(self@.java_outer_classname),
    {
        proof {
            reveal_strlit("");
        }
        match &self.java_outer_classname {
            Some(s) => s.as_str(),
            None => "",
        }
    }

    /// Gets the `java_outer_classname` field if it is set.
    pub fn java_outer_classname_option(&self) -> (r: Option<&String>)
        ensures
            opt_ref_view(r) == self@.java_outer_classname,
    {
        self.java_outer_classname.as_ref()
    }

    /// Gets the `java_outer_classname` field for changing it, setting it to its type's default first if it
    /// is not set.
    pub fn java_outer_classname_mut(&mut self) -> (r: &mut String)
        ensures
            (*r)@ == old(self)@.java_outer_classname.unwrap_or(Seq::<char>::empty()),
            final(self)@ == (FileOptionsView { java_outer_classname: Some((*final(r))@), ..old(self)@ }),
    {
        self.java_outer_classname.get_or_insert(String::new())
    }

    /// Returns whether the `java_outer_classname` field is set.
    pub fn has_java_outer_classname(&self) -> (r: bool)
        ensures
            r == self@.java_outer_classname is Some,
    {
        self.java_outer_classname.is_some()
    }

    /// Sets the `java_outer_classname` field.
    pub fn set_java_outer_classname(&mut self, value: String)
        ensures
            final(self)@ == (FileOptionsView { java_outer_classname: Some(value@), ..old(self)@ }),
    {
        self.java_outer_classname = Some(value);
    }

    /// Takes the `java_outer_classname` field out, leaving it unset.
    pub fn take_java_outer_classname(&mut self) -> (r: Option<String>)
        ensures
            opt_view(r) == old(self)@.java_outer_classname,
            final(self)@ == (FileOptionsView { java_outer_classname: None, ..old(self)@ }),
    {
        self.java_outer_classname.take()
    }

    /// Clears the `java_outer_classname` field, leaving it unset.
    pub fn clear_java_outer_classname(&mut self)
        ensures
            final(self)@ == (FileOptionsView { java_outer_classname: None, ..old(self)@ }),
    {
        self.java_outer_classname = None;
    }

    /// Gets the `java_multiple_files` field, or its default, `false`.
    pub fn java_multiple_files(&self) -> (r: bool)
        ensures
            r == self@.java_multiple_files.unwrap_or(false),
    {
        match self.java_multiple_files {
            Some(v) => v,
            None => false,
        }
    }

    /// Gets the `java_multiple_files` field if it is set.
    pub fn java_multiple_files_option(&self) -> (r: Option<&bool>)
        ensures
            opt_ref_view(r) == self@.java_multiple_files,
    {
        self.java_multiple_files.as_ref()
    }

    /// Gets the `java_multiple_files` field for changing it, setting it to its type's default first if it
    /// is not set.
    pub fn java_multiple_files_mut(&mut self) -> (r: &mut bool)
        ensures
            (*r)@ == old(self)@.java_multiple_files.unwrap_or(false),
            final(self)@ == (FileOptionsView { java_multiple_files: Some((*final(r))@), ..old(self)@ }),
    {
        self.java_multiple_files.get_or_insert(false)
    }

    /// Returns whether the `java_multiple_files` field is set.
    pub fn has_java_multiple_files(&self) -> (r: bool)
        ensures
            r == self@.java_multiple_files is Some,
    {
        self.java_multiple_files.is_some()
    }

    /// Sets the `java_multiple_files` field.
    pub fn set_java_multiple_files(&mut self, value: bool)
        ensures
            final(self)@ == (FileOptionsView { java_multiple_files: Some(value@), ..old(self)@ }),
    {
        self.java_multiple_files = Some(value);
    }

    /// Takes the `java_multiple_files` field out, leaving it unset.
    pub fn take_java_multiple_files(&mut self) -> (r: Option<bool>)
        ensures
            opt_view(r) == old(self)@.java_multiple_files,
            final(self)@ == (FileOptionsView { java_multiple_files: None, ..old(self)@ }),
    {
        self.java_multiple_files.take()
    }

    /// Clears the `java_multiple_files` field, leaving it unset.
    pub fn clear_java_multiple_files(&mut self)
        ensures
            final(self)@ == (FileOptionsView { java_multiple_files: None, ..old(self)@ }),
    {
        self.java_multiple_files = None;
    }

    /// Gets the `java_generate_equals_and_hash` field, or its default, `false`.
    pub fn java_generate_equals_and_hash(&self) -> (r: bool)
        ensures
            r == self@.java_generate_equals_and_hash.unwrap_or(false),
    {
        match self.java_generate_equals_and_hash {
            Some(v) => v,
            None => false,
        }
    }

    /// Gets the `java_generate_equals_and_hash` field if it is set.
    pub fn java_generate_equals_and_hash_option(&self) -> (r: Option<&bool>)
        ensures
            opt_ref_view(r) == self@.java_generate_equals_and_hash,
    {
        self.java_generate_equals_and_hash.as_ref()
    }

    /// Gets the `java_generate_equals_and_hash` field for changing it, setting it to its type's default first if it
    /// is not set.
    pub fn java_generate_equals_and_hash_mut(&mut self) -> (r: &mut bool)
        ensures
            (*r)@ == old(self)@.java_generate_equals_and_hash.unwrap_or(false),
            final(self)@ == (FileOptionsView { java_generate_equals_and_hash: Some((*final(r))@), ..old(self)@ }),
    {
        self.java_generate_equals_and_hash.get_or_insert(false)
    }

    /// Returns whether the `java_generate_equals_and_hash` field is set.
    pub fn has_java_generate_equals_and_hash(&self) -> (r: bool)
        ensures
            r == self@.java_generate_equals_and_hash is Some,
    {
        self.java_generate_equals_and_hash.is_some()
    }

    /// Sets the `java_generate_equals_and_hash` field.
    pub fn set_java_generate_equals_and_hash(&mut self, value: bool)
        ensures
            final(self)@ == (FileOptionsView { java_generate_equals_and_hash: Some(value@), ..old(self)@ }),
    {
        self.java_generate_equals_and_hash = Some(value);
    }

    /// Takes the `java_generate_equals_and_hash` field out, leaving it unset.
    pub fn take_java_generate_equals_and_hash(&mut self) -> (r: Option<bool>)
        ensures
            opt_view(r) == old(self)@.java_generate_equals_and_hash,
            final(self)@ == (FileOptionsView { java_generate_equals_and_hash: None, ..old(self)@ }),
    {
        self.java_generate_equals_and_hash.take()
    }

    /// Clears the `java_generate_equals_and_hash` field, leaving it unset.
    pub fn clear_java_generate_equals_and_hash(&mut self)
        ensures
            final(self)@ == (FileOptionsView { java_generate_equals_and_hash: None, ..old(self)@ }),
    {
        self.java_generate_equals_and_hash = None;
    }

    /// Gets the `java_string_check_utf8` field, or its default, `false`.
    pub fn java_string_check_utf8(&self) -> (r: bool)
        ensures
            r == self@.java_string_check_utf8.unwrap_or(false),
    {
        match self.java_string_check_utf8 {
            Some(v) => v,
            None => false,
        }
    }

    /// Gets the `java_string_check_utf8` field if it is set.
    pub fn java_string_check_utf8_option(&self) -> (r: Option<&bool>)
        ensures
            opt_ref_view(r) == self@.java_string_check_utf8,
    {
        self.java_string_check_utf8.as_ref()
    }

    /// Gets the `java_string_check_utf8` field for changing it, setting it to its type's default first if it
    /// is not set.
    pub fn java_string_check_utf8_mut(&mut self) -> (r: &mut bool)
        ensures
            (*r)@ == old(self)@.java_string_check_utf8.unwrap_or(false),
            final(self)@ == (FileOptionsView { java_string_check_utf8: Some((*final(r))@), ..old(self)@ }),
    {
        self.java_string_check_utf8.get_or_insert(false)
    }

    /// Returns whether the `java_string_check_utf8` field is set.
    pub fn has_java_string_check_utf8(&self) -> (r: bool)
        ensures
            r == self@.java_string_check_utf8 is Some,
    {
        self.java_string_check_utf8.is_some()
    }

    /// Sets the `java_string_check_utf8` field.
    pub fn set_java_string_check_utf8(&mut self, value: bool)
        ensures
            final(self)@ == (FileOptionsView { java_string_check_utf8: Some(value@), ..old(self)@ }),
    {
        self.java_string_check_utf8 = Some(value);
    }

    /// Takes the `java_string_check_utf8` field out, leaving it unset.
    pub fn take_java_string_check_utf8(&mut self) -> (r: Option<bool>)
        ensures
            opt_view(r) == old(self)@.java_string_check_utf8,
            final(self)@ == (FileOptionsView { java_string_check_utf8: None, ..old(self)@ }),
    {
        self.java_string_check_utf8.take()
    }

    /// Clears the `java_string_check_utf8` field, leaving it unset.
    pub fn clear_java_string_check_utf8(&mut self)
        ensures
            final(self)@ == (FileOptionsView { java_string_check_utf8: None, ..old(self)@ }),
    {
        self.java_string_check_utf8 = None;
    }

    /// Gets the `optimize_for` field, or its default, `SPEED`.
    pub fn optimize_for(&self) -> (r: OptimizeMode)
        ensures
            r@ == self@.optimize_for.unwrap_or(1i32),
    {
        match self.optimize_for {
            Some(v) => v,
            None => OptimizeMode::SPEED(),
        }
    }

    /// Gets the `optimize_for` field if it is set.
    pub fn optimize_for_option(&self) -> (r: Option<&OptimizeMode>)
        ensures
            opt_ref_view(r) == self@.optimize_for,
    {
        self.optimize_for.as_ref()
    }

    /// Gets the `optimize_for` field for changing it, setting it to its type's default first if it
    /// is not set.
    pub fn optimize_for_mut(&mut self) -> (r: &mut OptimizeMode)
        ensures
            (*r)@ == old(self)@.optimize_for.unwrap_or(0i32),
            final(self)@ == (FileOptionsView { optimize_for: Some((*final(r))@), ..old(self)@ }),
    {
        self.optimize_for.get_or_insert(OptimizeMode(0))
    }

    /// Returns whether the `optimize_for` field is set.
    pub fn has_optimize_for(&self) -> (r: bool)
        ensures
            r == self@.optimize_for is Some,
    {
        self.optimize_for.is_some()
    }

    /// Sets the `optimize_for` field.
    pub fn set_optimize_for(&mut self, value: OptimizeMode)
        ensures
            final(self)@ == (FileOptionsView { optimize_for: Some(value@), ..old(self)@ }),
    {
        self.optimize_for = Some(value);
    }

    /// Takes the `optimize_for` field out, leaving it unset.
    pub fn take_optimize_for(&mut self) -> (r: Option<OptimizeMode>)
        ensures
            opt_view(r) == old(self)@.optimize_for,
            final(self)@ == (FileOptionsView { optimize_for: None, ..old(self)@ }),
    {
        self.optimize_for.take()
    }

    /// Clears the `optimize_for` field, leaving it unset.
    pub fn clear_optimize_for(&mut self)
        ensures
            final(self)@ == (FileOptionsView { optimize_for: None, ..old(self)@ }),
    {
        self.optimize_for = None;
    }

    /// Gets the `go_package` field, or its default, the empty string.
    pub fn go_package(&self) -> (r: &str)
        ensures
            r@ == text_or_empty(self@.go_package),
    {
        proof {
            reveal_strlit("");
        }
        match &self.go_package {
            Some(s) => s.as_str(),
            None => "",
        }
    }

    /// Gets the `go_package` field if it is set.
    pub fn go_package_option(&self) -> (r: Option<&String>)
        ensures
            opt_ref_view(r) == self@.go_package,
    {
        self.go_package.as_ref()
    }

    /// Gets the `go_package` field for changing it, setting it to its type's default first if it
    /// is not set.
    pub fn go_package_mut(&mut self) -> (r: &mut String)
        ensures
            (*r)@ == old(self)@.go_package.unwrap_or(Seq::<char>::empty()),
            final(self)@ == (FileOptionsView { go_package: Some((*final(r))@), ..old(self)@ }),
    {
        self.go_package.get_or_insert(String::new())
    }

    /// Returns whether the `go_package` field is set.
    pub fn has_go_package(&self) -> (r: bool)
        ensures
            r == self@.go_package is Some,
    {
        self.go_package.is_some()
    }

    /// Sets the `go_package` field.
    pub fn set_go_package(&mut self, value: String)
        ensures
            final(self)@ == (FileOptionsView { go_package: Some(value@), ..old(self)@ }),
    {
        self.go_package = Some(value);
    }

    /// Takes the `go_package` field out, leaving it unset.
    pub fn take_go_package(&mut self) -> (r: Option<String>)
        ensures
            opt_view(r) == old(self)@.go_package,
            final(self)@ == (FileOptionsView { go_package: None, ..old(self)@ }),
    {
        self.go_package.take()
    }

    /// Clears the `go_package` field, leaving it unset.
    pub fn clear_go_package(&mut self)
        ensures
            final(self)@ == (FileOptionsView { go_package: None, ..old(self)@ }),
    {
        self.go_package = None;
    }

    /// Gets the `cc_generic_services` field, or its default, `false`.
    pub fn cc_generic_services(&self) -> (r: bool)
        ensures
            r == self@.cc_generic_services.unwrap_or(false),
    {
        match self.cc_generic_services {
            Some(v) => v,
            None => false,
        }
    }

    /// Gets the `cc_generic_services` field if it is set.
    pub fn cc_generic_services_option(&self) -> (r: Option<&bool>)
        ensures
            opt_ref_view(r) == self@.cc_generic_services,
    {
        self.cc_generic_services.as_ref()
    }

    /// Gets the `cc_generic_services` field for changing it, setting it to its type's default first if it
    /// is not set.
    pub fn cc_generic_services_mut(&mut self) -> (r: &mut bool)
        ensures
            (*r)@ == old(self)@.cc_generic_services.unwrap_or(false),
            final(self)@ == (FileOptionsView { cc_generic_services: Some((*final(r))@), ..old(self)@ }),
    {
        self.cc_generic_services.get_or_insert(false)
    }

    /// Returns whether the `cc_generic_services` field is set.
    pub fn has_cc_generic_services(&self) -> (r: bool)
        ensures
            r == self@.cc_generic_services is Some,
    {
        self.cc_generic_services.is_some()
    }

    /// Sets the `cc_generic_services` field.
    pub fn set_cc_generic_services(&mut self, value: bool)
        ensures
            final(self)@ == (FileOptionsView { cc_generic_services: Some(value@), ..old(self)@ }),
    {
        self.cc_generic_services = Some(value);
    }

    /// Takes the `cc_generic_services` field out, leaving it unset.
    pub fn take_cc_generic_services(&mut self) -> (r: Option<bool>)
        ensures
            opt_view(r) == old(self)@.cc_generic_services,
            final(self)@ == (FileOptionsView { cc_generic_services: None, ..old(self)@ }),
    {
        self.cc_generic_services.take()
    }

    /// Clears the `cc_generic_services` field, leaving it unset.
    pub fn clear_cc_generic_services(&mut self)
        ensures
            final(self)@ == (FileOptionsView { cc_generic_services: None, ..old(self)@ }),
    {
        self.cc_generic_services = None;
    }

    /// Gets the `java_generic_services` field, or its default, `false`.
    pub fn java_generic_services(&self) -> (r: bool)
        ensures
            r == self@.java_generic_services.unwrap_or(false),
    {
        match self.java_generic_services {
            Some(v) => v,
            None => false,
        }
    }

    /// Gets the `java_generic_services` field if it is set.
    pub fn java_generic_services_option(&self) -> (r: Option<&bool>)
        ensures
            opt_ref_view(r) == self@.java_generic_services,
    {
        self.java_generic_services.as_ref()
    }

    /// Gets the `java_generic_services` field for changing it, setting it to its type's default first if it
    /// is not set.
    pub fn java_generic_services_mut(&mut self) -> (r: &mut bool)
        ensures
            (*r)@ == old(self)@.java_generic_services.unwrap_or(false),
            final(self)@ == (FileOptionsView { java_generic_services: Some((*final(r))@), ..old(self)@ }),
    {
        self.java_generic_services.get_or_insert(false)
    }

    /// Returns whether the `java_generic_services` field is set.
    pub fn has_java_generic_services(&self) -> (r: bool)
        ensures
            r == self@.java_generic_services is Some,
    {
        self.java_generic_services.is_some()
    }

    /// Sets the `java_generic_services` field.
    pub fn set_java_generic_services(&mut self, value: bool)
        ensures
            final(self)@ == (FileOptionsView { java_generic_services: Some(value@), ..old(self)@ }),
    {
        self.java_generic_services = Some(value);
    }

    /// Takes the `java_generic_services` field out, leaving it unset.
    pub fn take_java_generic_services(&mut self) -> (r: Option<bool>)
        ensures
            opt_view(r) == old(self)@.java_generic_services,
            final(self)@ == (FileOptionsView { java_generic_services: None, ..old(self)@ }),
    {
        self.java_generic_services.take()
    }

    /// Clears the `java_generic_services` field, leaving it unset.
    pub fn clear_java_generic_services(&mut self)
        ensures
            final(self)@ == (FileOptionsView { java_generic_services: None, ..old(self)@ }),
    {
        self.java_generic_services = None;
    }

    /// Gets the `py_generic_services` field, or its default, `false`.
    pub fn py_generic_services(&self) -> (r: bool)
        ensures
            r == self@.py_generic_services.unwrap_or(false),
    {
        match self.py_generic_services {
            Some(v) => v,
            None => false,
        }
    }

    /// Gets the `py_generic_services` field if it is set.
    pub fn py_generic_services_option(&self) -> (r: Option<&bool>)
        ensures
            opt_ref_view(r) == self@.py_generic_services,
    {
        self.py_generic_services.as_ref()
    }

    /// Gets the `py_generic_services` field for changing it, setting it to its type's default first if it
    /// is not set.
    pub fn py_generic_services_mut(&mut self) -> (r: &mut bool)
        ensures
            (*r)@ == old(self)@.py_generic_services.unwrap_or(false),
            final(self)@ == (FileOptionsView { py_generic_services: Some((*final(r))@), ..old(self)@ }),
    {
        self.py_generic_services.get_or_insert(false)
    }

    /// Returns whether the `py_generic_services` field is set.
    pub fn has_py_generic_services(&self) -> (r: bool)
        ensures
            r == self@.py_generic_services is Some,
    {
        self.py_generic_services.is_some()
    }

    /// Sets the `py_generic_services` field.
    pub fn set_py_generic_services(&mut self, value: bool)
        ensures
            final(self)@ == (FileOptionsView { py_generic_services: Some(value@), ..old(self)@ }),
    {
        self.py_generic_services = Some(value);
    }

    /// Takes the `py_generic_services` field out, leaving it unset.
    pub fn take_py_generic_services(&mut self) -> (r: Option<bool>)
        ensures
            opt_view(r) == old(self)@.py_generic_services,
            final(self)@ == (FileOptionsView { py_generic_services: None, ..old(self)@ }),
    {
        self.py_generic_services.take()
    }

    /// Clears the `py_generic_services` field, leaving it unset.
    pub fn clear_py_generic_services(&mut self)
        ensures
            final(self)@ == (FileOptionsView { py_generic_services: None, ..old(self)@ }),
    {
        self.py_generic_services = None;
    }

    /// Gets the `php_generic_services` field, or its default, `false`.
    pub fn php_generic_services(&self) -> (r: bool)
        ensures
            r == self@.php_generic_services.unwrap_or(false),
    {
        match self.php_generic_services {
            Some(v) => v,
            None => false,
        }
    }

    /// Gets the `php_generic_services` field if it is set.
    pub fn php_generic_services_option(&self) -> (r: Option<&bool>)
        ensures
            opt_ref_view(r) == self@.php_generic_services,
    {
        self.php_generic_services.as_ref()
    }

    /// Gets the `php_generic_services` field for changing it, setting it to its type's default first if it
    /// is not set.
    pub fn php_generic_services_mut(&mut self) -> (r: &mut bool)
        ensures
            (*r)@ == old(self)@.php_generic_services.unwrap_or(false),
            final(self)@ == (FileOptionsView { php_generic_services: Some((*final(r))@), ..old(self)@ }),
    {
        self.php_generic_services.get_or_insert(false)
    }

    /// Returns whether the `php_generic_services` field is set.
    pub fn has_php_generic_services(&self) -> (r: bool)
        ensures
            r == self@.php_generic_services is Some,
    {
        self.php_generic_services.is_some()
    }

    /// Sets the `php_generic_services` field.
    pub fn set_php_generic_services(&mut self, value: bool)
        ensures
            final(self)@ == (FileOptionsView { php_generic_services: Some(value@), ..old(self)@ }),
    {
        self.php_generic_services = Some(value);
    }

    /// Takes the `php_generic_services` field out, leaving it unset.
    pub fn take_php_generic_services(&mut self) -> (r: Option<bool>)
        ensures
            opt_view(r) == old(self)@.php_generic_services,
            final(self)@ == (FileOptionsView { php_generic_services: None, ..old(self)@ }),
    {
        self.php_generic_services.take()
    }

    /// Clears the `php_generic_services` field, leaving it unset.
    pub fn clear_php_generic_services(&mut self)
        ensures
            final(self)@ == (FileOptionsView { php_generic_services: None, ..old(self)@ }),
    {
        self.php_generic_services = None;
    }

    /// Gets the `deprecated` field, or its default, `false`.
    pub fn deprecated(&self) -> (r: bool)
        ensures
            r == self@.deprecated.unwrap_or(false),
    {
        match self.deprecated {
            Some(v) => v,
            None => false,
        }
    }

    /// Gets the `deprecated` field if it is set.
    pub fn deprecated_option(&self) -> (r: Option<&bool>)
        ensures
            opt_ref_view(r) == self@.deprecated,
    {
        self.deprecated.as_ref()
    }

    /// Gets the `deprecated` field for changing it, setting it to its type's default first if it
    /// is not set.
    pub fn deprecated_mut(&mut self) -> (r: &mut bool)
        ensures
            (*r)@ == old(self)@.deprecated.unwrap_or(false),
            final(self)@ == (FileOptionsView { deprecated: Some((*final(r))@), ..old(self)@ }),
    {
        self.deprecated.get_or_insert(false)
    }

    /// Returns whether the `deprecated` field is set.
    pub fn has_deprecated(&self) -> (r: bool)
        ensures
            r == self@.deprecated is Some,
    {
        self.deprecated.is_some()
    }

    /// Sets the `deprecated` field.
    pub fn set_deprecated(&mut self, value: bool)
        ensures
            final(self)@ == (FileOptionsView { deprecated: Some(value@), ..old(self)@ }),
    {
        self.deprecated = Some(value);
    }

    /// Takes the `deprecated` field out, leaving it unset.
    pub fn take_deprecated(&mut self) -> (r: Option<bool>)
        ensures
            opt_view(r) == old(self)@.deprecated,
            final(self)@ == (FileOptionsView { deprecated: None, ..old(self)@ }),
    {
        self.deprecated.take()
    }

    /// Clears the `deprecated` field, leaving it unset.
    pub fn clear_deprecated(&mut self)
        ensures
            final(self)@ == (FileOptionsView { deprecated: None, ..old(self)@ }),
    {
        self.deprecated = None;
    }

    /// Gets the `cc_enable_arenas` field, or its default, `false`.
    pub fn cc_enable_arenas(&self) -> (r: bool)
        ensures
            r == self@.cc_enable_arenas.unwrap_or(false),
    {
        match self.cc_enable_arenas {
            Some(v) => v,
            None => false,
        }
    }

    /// Gets the `cc_enable_arenas` field if it is set.
    pub fn cc_enable_arenas_option(&self) -> (r: Option<&bool>)
        ensures
            opt_ref_view(r) == self@.cc_enable_arenas,
    {
        self.cc_enable_arenas.as_ref()
    }

    /// Gets the `cc_enable_arenas` field for changing it, setting it to its type's default first if it
    /// is not set.
    pub fn cc_enable_arenas_mut(&mut self) -> (r: &mut bool)
        ensures
            (*r)@ == old(self)@.cc_enable_arenas.unwrap_or(false),
            final(self)@ == (FileOptionsView { cc_enable_arenas: Some((*final(r))@), ..old(self)@ }),
    {
        self.cc_enable_arenas.get_or_insert(false)
    }

    /// Returns whether the `cc_enable_arenas` field is set.
    pub fn has_cc_enable_arenas(&self) -> (r: bool)
        ensures
            r == self@.cc_enable_arenas is Some,
    {
        self.cc_enable_arenas.is_some()
    }

    /// Sets the `cc_enable_arenas` field.
    pub fn set_cc_enable_arenas(&mut self, value: bool)
        ensures
            final(self)@ == (FileOptionsView { cc_enable_arenas: Some(value@), ..old(self)@ }),
    {
        self.cc_enable_arenas = Some(value);
    }

    /// Takes the `cc_enable_arenas` field out, leaving it unset.
    pub fn take_cc_enable_arenas(&mut self) -> (r: Option<bool>)
        ensures
            opt_view(r) == old(self)@.cc_enable_arenas,
            final(self)@ == (FileOptionsView { cc_enable_arenas: None, ..old(self)@ }),
    {
        self.cc_enable_arenas.take()
    }

    /// Clears the `cc_enable_arenas` field, leaving it unset.
    pub fn clear_cc_enable_arenas(&mut self)
        ensures
            final(self)@ == (FileOptionsView { cc_enable_arenas: None, ..old(self)@ }),
    {
        self.cc_enable_arenas = None;
    }

    /// Gets the `objc_class_prefix` field, or its default, the empty string.
    pub fn objc_class_prefix(&self) -> (r: &str)
        ensures
            r@ == text_or_empty(self@.objc_class_prefix),
    {
        proof {
            reveal_strlit("");
        }
        match &self.objc_class_prefix {
            Some(s) => s.as_str(),
            None => "",
        }
    }

    /// Gets the `objc_class_prefix` field if it is set.
    pub fn objc_class_prefix_option(&self) -> (r: Option<&String>)
        ensures
            opt_ref_view(r) == self@.objc_class_prefix,
    {
        self.objc_class_prefix.as_ref()
    }

    /// Gets the `objc_class_prefix` field for changing it, setting it to its type's default first if it
    /// is not set.
    pub fn objc_class_prefix_mut(&mut self) -> (r: &mut String)
        ensures
            (*r)@ == old(self)@.objc_class_prefix.unwrap_or(Seq::<char>::empty()),
            final(self)@ == (FileOptionsView { objc_class_prefix: Some((*final(r))@), ..old(self)@ }),
    {
        self.objc_class_prefix.get_or_insert(String::new())
    }

    /// Returns whether the `objc_class_prefix` field is set.
    pub fn has_objc_class_prefix(&self) -> (r: bool)
        ensures
            r == self@.objc_class_prefix is Some,
    {
        self.objc_class_prefix.is_some()
    }

    /// Sets the `objc_class_prefix` field.
    pub fn set_objc_class_prefix(&mut self, value: String)
        ensures
            final(self)@ == (FileOptionsView { objc_class_prefix: Some(value@), ..old(self)@ }),
    {
        self.objc_class_prefix = Some(value);
    }

    /// Takes the `objc_class_prefix` field out, leaving it unset.
    pub fn take_objc_class_prefix(&mut self) -> (r: Option<String>)
        ensures
            opt_view(r) == old(self)@.objc_class_prefix,
            final(self)@ == (FileOptionsView { objc_class_prefix: None, ..old(self)@ }),
    {
        self.objc_class_prefix.take()
    }

    /// Clears the `objc_class_prefix` field, leaving it unset.
    pub fn clear_objc_class_prefix(&mut self)
        ensures
            final(self)@ == (FileOptionsView { objc_class_prefix: None, ..old(self)@ }),
    {
        self.objc_class_prefix = None;
    }

    /// Gets the `csharp_namespace` field, or its default, the empty string.
    pub fn csharp_namespace(&self) -> (r: &str)
        ensures
            r@ == text_or_empty(self@.csharp_namespace),
    {
        proof {
            reveal_strlit("");
        }
        match &self.csharp_namespace {
            Some(s) => s.as_str(),
            None => "",
        }
    }

    /// Gets the `csharp_namespace` field if it is set.
    pub fn csharp_namespace_option(&self) -> (r: Option<&String>)
        ensures
            opt_ref_view(r) == self@.csharp_namespace,
    {
        self.csharp_namespace.as_ref()
    }

    /// Gets the `csharp_namespace` field for changing it, setting it to its type's default first if it
    /// is not set.
    pub fn csharp_namespace_mut(&mut self) -> (r: &mut String)
        ensures
            (*r)@ == old(self)@.csharp_namespace.unwrap_or(Seq::<char>::empty()),
            final(self)@ == (FileOptionsView { csharp_namespace: Some((*final(r))@), ..old(self)@ }),
    {
        self.csharp_namespace.get_or_insert(String::new())
    }

    /// Returns whether the `csharp_namespace` field is set.
    pub fn has_csharp_namespace(&self) -> (r: bool)
        ensures
            r == self@.csharp_namespace is Some,
    {
        self.csharp_namespace.is_some()
    }

    /// Sets the `csharp_namespace` field.
    pub fn set_csharp_namespace(&mut self, value: String)
        ensures
            final(self)@ == (FileOptionsView { csharp_namespace: Some(value@), ..old(self)@ }),
    {
        self.csharp_namespace = Some(value);
    }

    /// Takes the `csharp_namespace` field out, leaving it unset.
    pub fn take_csharp_namespace(&mut self) -> (r: Option<String>)
        ensures
            opt_view(r) == old(self)@.csharp_namespace,
            final(self)@ == (FileOptionsView { csharp_namespace: None, ..old(self)@ }),
    {
        self.csharp_namespace.take()
    }

    /// Clears the `csharp_namespace` field, leaving it unset.
    pub fn clear_csharp_namespace(&mut self)
        ensures
            final(self)@ == (FileOptionsView { csharp_namespace: None, ..old(self)@ }),
    {
        self.csharp_namespace = None;
    }

    /// Gets the `swift_prefix` field, or its default, the empty string.
    pub fn swift_prefix(&self) -> (r: &str)
        ensures
            r@ == text_or_empty(self@.swift_prefix),
    {
        proof {
            reveal_strlit("");
        }
        match &self.swift_prefix {
            Some(s) => s.as_str(),
            None => "",
        }
    }

    /// Gets the `swift_prefix` field if it is set.
    pub fn swift_prefix_option(&self) -> (r: Option<&String>)
        ensures
            opt_ref_view(r) == self@.swift_prefix,
    {
        self.swift_prefix.as_ref()
    }

    /// Gets the `swift_prefix` field for changing it, setting it to its type's default first if it
    /// is not set.
    pub fn swift_prefix_mut(&mut self) -> (r: &mut String)
        ensures
            (*r)@ == old(self)@.swift_prefix.unwrap_or(Seq::<char>::empty()),
            final(self)@ == (FileOptionsView { swift_prefix: Some((*final(r))@), ..old(self)@ }),
    {
        self.swift_prefix.get_or_insert(String::new())
    }

    /// Returns whether the `swift_prefix` field is set.
    pub fn has_swift_prefix(&self) -> (r: bool)
        ensures
            r == self@.swift_prefix is Some,
    {
        self.swift_prefix.is_some()
    }

    /// Sets the `swift_prefix` field.
    pub fn set_swift_prefix(&mut self, value: String)
        ensures
            final(self)@ == (FileOptionsView { swift_prefix: Some(value@), ..old(self)@ }),
    {
        self.swift_prefix = Some(value);
    }

    /// Takes the `swift_prefix` field out, leaving it unset.
    pub fn take_swift_prefix(&mut self) -> (r: Option<String>)
        ensures
            opt_view(r) == old(self)@.swift_prefix,
            final(self)@ == (FileOptionsView { swift_prefix: None, ..old(self)@ }),
    {
        self.swift_prefix.take()
    }

    /// Clears the `swift_prefix` field, leaving it unset.
    pub fn clear_swift_prefix(&mut self)
        ensures
            final(self)@ == (FileOptionsView { swift_prefix: None, ..old(self)@ }),
    {
        self.swift_prefix = None;
    }

    /// Gets the `php_class_prefix` field, or its default, the empty string.
    pub fn php_class_prefix(&self) -> (r: &str)
        ensures
            r@ == text_or_empty(self@.php_class_prefix),
    {
        proof {
            reveal_strlit("");
        }
        match &self.php_class_prefix {
            Some(s) => s.as_str(),
            None => "",
        }
    }

    /// Gets the `php_class_prefix` field if it is set.
    pub fn php_class_prefix_option(&self) -> (r: Option<&String>)
        ensures
            opt_ref_view(r) == self@.php_class_prefix,
    {
        self.php_class_prefix.as_ref()
    }

    /// Gets the `php_class_prefix` field for changing it, setting it to its type's default first if it
    /// is not set.
    pub fn php_class_prefix_mut(&mut self) -> (r: &mut String)
        ensures
            (*r)@ == old(self)@.php_class_prefix.unwrap_or(Seq::<char>::empty()),
            final(self)@ == (FileOptionsView { php_class_prefix: Some((*final(r))@), ..old(self)@ }),
    {
        self.php_class_prefix.get_or_insert(String::new())
    }

    /// Returns whether the `php_class_prefix` field is set.
    pub fn has_php_class_prefix(&self) -> (r: bool)
        ensures
            r == self@.php_class_prefix is Some,
    {
        self.php_class_prefix.is_some()
    }

    /// Sets the `php_class_prefix` field.
    pub fn set_php_class_prefix(&mut self, value: String)
        ensures
            final(self)@ == (FileOptionsView { php_class_prefix: Some(value@), ..old(self)@ }),
    {
        self.php_class_prefix = Some(value);
    }

    /// Takes the `php_class_prefix` field out, leaving it unset.
    pub fn take_php_class_prefix(&mut self) -> (r: Option<String>)
        ensures
            opt_view(r) == old(self)@.php_class_prefix,
            final(self)@ == (FileOptionsView { php_class_prefix: None, ..old(self)@ }),
    {
        self.php_class_prefix.take()
    }

    /// Clears the `php_class_prefix` field, leaving it unset.
    pub fn clear_php_class_prefix(&mut self)
        ensures
            final(self)@ == (FileOptionsView { php_class_prefix: None, ..old(self)@ }),
    {
        self.php_class_prefix = None;
    }

    /// Gets the `php_namespace` field, or its default, the empty string.
    pub fn php_namespace(&self) -> (r: &str)
        ensures
            r@ == text_or_empty(self@.php_namespace),
    {
        proof {
            reveal_strlit("");
        }
        match &self.php_namespace {
            Some(s) => s.as_str(),
            None => "",
        }
    }

    /// Gets the `php_namespace` field if it is set.
    pub fn php_namespace_option(&self) -> (r: Option<&String>)
        ensures
            opt_ref_view(r) == self@.php_namespace,
    {
        self.php_namespace.as_ref()
    }

    /// Gets the `php_namespace` field for changing it, setting it to its type's default first if it
    /// is not set.
    pub fn php_namespace_mut(&mut self) -> (r: &mut String)
        ensures
            (*r)@ == old(self)@.php_namespace.unwrap_or(Seq::<char>::empty()),
            final(self)@ == (FileOptionsView { php_namespace: Some((*final(r))@), ..old(self)@ }),
    {
        self.php_namespace.get_or_insert(String::new())
    }

    /// Returns whether the `php_namespace` field is set.
    pub fn has_php_namespace(&self) -> (r: bool)
        ensures
            r == self@.php_namespace is Some,
    {
        self.php_namespace.is_some()
    }

    /// Sets the `php_namespace` field.
    pub fn set_php_namespace(&mut self, value: String)
        ensures
            final(self)@ == (FileOptionsView { php_namespace: Some(value@), ..old(self)@ }),
    {
        self.php_namespace = Some(value);
    }

    /// Takes the `php_namespace` field out, leaving it unset.
    pub fn take_php_namespace(&mut self) -> (r: Option<String>)
        ensures
            opt_view(r) == old(self)@.php_namespace,
            final(self)@ == (FileOptionsView { php_namespace: None, ..old(self)@ }),
    {
        self.php_namespace.take()
    }

    /// Clears the `php_namespace` field, leaving it unset.
    pub fn clear_php_namespace(&mut self)
        ensures
            final(self)@ == (FileOptionsView { php_namespace: None, ..old(self)@ }),
    {
        self.php_namespace = None;
    }

    /// Gets the `php_metadata_namespace` field, or its default, the empty string.
    pub fn php_metadata_namespace(&self) -> (r: &str)
        ensures
            r@ == text_or_empty(self@.php_metadata_namespace),
    {
        proof {
            reveal_strlit("");
        }
        match &self.php_metadata_namespace {
            Some(s) => s.as_str(),
            None => "",
        }
    }

    /// Gets the `php_metadata_namespace` field if it is set.
    pub fn php_metadata_namespace_option(&self) -> (r: Option<&String>)
        ensures
            opt_ref_view(r) == self@.php_metadata_namespace,
    {
        self.php_metadata_namespace.as_ref()
    }

    /// Gets the `php_metadata_namespace` field for changing it, setting it to its type's default first if it
    /// is not set.
    pub fn php_metadata_namespace_mut(&mut self) -> (r: &mut String)
        ensures
            (*r)@ == old(self)@.php_metadata_namespace.unwrap_or(Seq::<char>::empty()),
            final(self)@ == (FileOptionsView { php_metadata_namespace: Some((*final(r))@), ..old(self)@ }),
    {
        self.php_metadata_namespace.get_or_insert(String::new())
    }

    /// Returns whether the `php_metadata_namespace` field is set.
    pub fn has_php_metadata_namespace(&self) -> (r: bool)
        ensures
            r == self@.php_metadata_namespace is Some,
    {
        self.php_metadata_namespace.is_some()
    }

    /// Sets the `php_metadata_namespace` field.
    pub fn set_php_metadata_namespace(&mut self, value: String)
        ensures
            final(self)@ == (FileOptionsView { php_metadata_namespace: Some(value@), ..old(self)@ }),
    {
        self.php_metadata_namespace = Some(value);
    }

    /// Takes the `php_metadata_namespace` field out, leaving it unset.
    pub fn take_php_metadata_namespace(&mut self) -> (r: Option<String>)
        ensures
            opt_view(r) == old(self)@.php_metadata_namespace,
            final(self)@ == (FileOptionsView { php_metadata_namespace: None, ..old(self)@ }),
    {
        self.php_metadata_namespace.take()
    }

    /// Clears the `php_metadata_namespace` field, leaving it unset.
    pub fn clear_php_metadata_namespace(&mut self)
        ensures
            final(self)@ == (FileOptionsView { php_metadata_namespace: None, ..old(self)@ }),
    {
        self.php_metadata_namespace = None;
    }

    /// Gets the `ruby_package` field, or its default, the empty string.
    pub fn ruby_package(&self) -> (r: &str)
        ensures
            r@ == text_or_empty(self@.ruby_package),
    {
        proof {
            reveal_strlit("");
        }
        match &self.ruby_package {
            Some(s) => s.as_str(),
            None => "",
        }
    }

    /// Gets the `ruby_package` field if it is set.
    pub fn ruby_package_option(&self) -> (r: Option<&String>)
        ensures
            opt_ref_view(r) == self@.ruby_package,
    {
        self.ruby_package.as_ref()
    }

    /// Gets the `ruby_package` field for changing it, setting it to its type's default first if it
    /// is not set.
    pub fn ruby_package_mut(&mut self) -> (r: &mut String)
        ensures
            (*r)@ == old(self)@.ruby_package.unwrap_or(Seq::<char>::empty()),
            final(self)@ == (FileOptionsView { ruby_package: Some((*final(r))@), ..old(self)@ }),
    {
        self.ruby_package.get_or_insert(String::new())
    }

    /// Returns whether the `ruby_package` field is set.
    pub fn has_ruby_package(&self) -> (r: bool)
        ensures
            r == self@.ruby_package is Some,
    {
        self.ruby_package.is_some()
    }

    /// Sets the `ruby_package` field.
    pub fn set_ruby_package(&mut self, value: String)
        ensures
            final(self)@ == (FileOptionsView { ruby_package: Some(value@), ..old(self)@ }),
    {
        self.ruby_package = Some(value);
    }

    /// Takes the `ruby_package` field out, leaving it unset.
    pub fn take_ruby_package(&mut self) -> (r: Option<String>)
        ensures
            opt_view(r) == old(self)@.ruby_package,
            final(self)@ == (FileOptionsView { ruby_package: None, ..old(self)@ }),
    {
        self.ruby_package.take()
    }

    /// Clears the `ruby_package` field, leaving it unset.
    pub fn clear_ruby_package(&mut self)
        ensures
            final(self)@ == (FileOptionsView { ruby_package: None, ..old(self)@ }),
    {
        self.ruby_package = None;
    }

    /// Gets the values of the `uninterpreted_option` field.
    pub fn uninterpreted_option(&self) -> (r: &RepeatedField<UninterpretedOption>)
        ensures
            uninterpreted_option_seq_view(r@) == self@.uninterpreted_option,
    {
        &self.uninterpreted_option
    }

    /// Gets the values of the `uninterpreted_option` field for changing them.
    pub fn uninterpreted_option_mut(&mut self) -> (r: &mut RepeatedField<UninterpretedOption>)
        ensures
            uninterpreted_option_seq_view((*r)@) == old(self)@.uninterpreted_option,
            final(self)@ == (FileOptionsView { uninterpreted_option: uninterpreted_option_seq_view((*final(r))@), ..old(self)@ }),
    {
        &mut self.uninterpreted_option
    }
}

/// The parts a `FileOptions` is written as: its fields that are set, in field number order, then its
/// unknown fields.
#[verifier::opaque]
pub open spec fn file_options_parts(v: FileOptionsView) -> Seq<(bool, Seq<u8>)>
{
    opt_field_parts::<raw::String>(1u32, v.java_package) + (opt_field_parts::<raw::String>(8u32, v.java_outer_classname) + (opt_field_parts::<raw::Enum<file_options::OptimizeMode>>(9u32, v.optimize_for) + (opt_field_parts::<raw::Bool>(10u32, v.java_multiple_files) + (opt_field_parts::<raw::String>(11u32, v.go_package) + (opt_field_parts::<raw::Bool>(16u32, v.cc_generic_services) + (opt_field_parts::<raw::Bool>(17u32, v.java_generic_services) + (opt_field_parts::<raw::Bool>(18u32, v.py_generic_services) + (opt_field_parts::<raw::Bool>(20u32, v.java_generate_equals_and_hash) + (opt_field_parts::<raw::Bool>(23u32, v.deprecated) + (opt_field_parts::<raw::Bool>(27u32, v.java_string_check_utf8) + (opt_field_parts::<raw::Bool>(31u32, v.cc_enable_arenas) + (opt_field_parts::<raw::String>(36u32, v.objc_class_prefix) + (opt_field_parts::<raw::String>(37u32, v.csharp_namespace) + (opt_field_parts::<raw::String>(39u32, v.swift_prefix) + (opt_field_parts::<raw::String>(40u32, v.php_class_prefix) + (opt_field_parts::<raw::String>(41u32, v.php_namespace) + (opt_field_parts::<raw::Bool>(42u32, v.php_generic_services) + (opt_field_parts::<raw::String>(44u32, v.php_metadata_namespace) + (opt_field_parts::<raw::String>(45u32, v.ruby_package) + (uninterpreted_option_seq_parts(999u32, v.uninterpreted_option) + (set_parts(v.unknown_fields))))))))))))))))))))))
}

/// What reading the field with tag value `t` from the front of `rest` into `v` gives: the
/// number of bytes read and the message after, or the error.
pub open spec fn file_options_field_read(v: FileOptionsView, t: u32, rest: Seq<u8>, depth: nat, limit: nat, skip: bool, eg: Option<Tag>) -> ReadResult<(int, FileOptionsView)>
{
    if t == 10u32 {
        match <raw::String as Value>::decoding(rest) { Ok((m, x)) => Ok((m, FileOptionsView { java_package: Some(x), ..v })), Err(e) => Err(e) }
    } else if t == 66u32 {
        match <raw::String as Value>::decoding(rest) { Ok((m, x)) => Ok((m, FileOptionsView { java_outer_classname: Some(x), ..v })), Err(e) => Err(e) }
    } else if t == 72u32 {
        match <raw::Enum<file_options::OptimizeMode> as Value>::decoding(rest) { Ok((m, x)) => Ok((m, FileOptionsView { optimize_for: Some(x), ..v })), Err(e) => Err(e) }
    } else if t == 80u32 {
        match <raw::Bool as Value>::decoding(rest) { Ok((m, x)) => Ok((m, FileOptionsView { java_multiple_files: Some(x), ..v })), Err(e) => Err(e) }
    } else if t == 90u32 {
        match <raw::String as Value>::decoding(rest) { Ok((m, x)) => Ok((m, FileOptionsView { go_package: Some(x), ..v })), Err(e) => Err(e) }
    } else if t == 128u32 {
        match <raw::Bool as Value>::decoding(rest) { Ok((m, x)) => Ok((m, FileOptionsView { cc_generic_services: Some(x), ..v })), Err(e) => Err(e) }
    } else if t == 136u32 {
        match <raw::Bool as Value>::decoding(rest) { Ok((m, x)) => Ok((m, FileOptionsView { java_generic_services: Some(x), ..v })), Err(e) => Err(e) }
    } else if t == 144u32 {
        match <raw::Bool as Value>::decoding(rest) { Ok((m, x)) => Ok((m, FileOptionsView { py_generic_services: Some(x), ..v })), Err(e) => Err(e) }
    } else if t == 160u32 {
        match <raw::Bool as Value>::decoding(rest) { Ok((m, x)) => Ok((m, FileOptionsView { java_generate_equals_and_hash: Some(x), ..v })), Err(e) => Err(e) }
    } else if t == 184u32 {
        match <raw::Bool as Value>::decoding(rest) { Ok((m, x)) => Ok((m, FileOptionsView { deprecated: Some(x), ..v })), Err(e) => Err(e) }
    } else if t == 216u32 {
        match <raw::Bool as Value>::decoding(rest) { Ok((m, x)) => Ok((m, FileOptionsView { java_string_check_utf8: Some(x), ..v })), Err(e) => Err(e) }
    } else if t == 248u32 {
        match <raw::Bool as Value>::decoding(rest) { Ok((m, x)) => Ok((m, FileOptionsView { cc_enable_arenas: Some(x), ..v })), Err(e) => Err(e) }
    } else if t == 290u32 {
        match <raw::String as Value>::decoding(rest) { Ok((m, x)) => Ok((m, FileOptionsView { objc_class_prefix: Some(x), ..v })), Err(e) => Err(e) }
    } else if t == 298u32 {
        match <raw::String as Value>::decoding(rest) { Ok((m, x)) => Ok((m, FileOptionsView { csharp_namespace: Some(x), ..v })), Err(e) => Err(e) }
    } else if t == 314u32 {
        match <raw::String as Value>::decoding(rest) { Ok((m, x)) => Ok((m, FileOptionsView { swift_prefix: Some(x), ..v })), Err(e) => Err(e) }
    } else if t == 322u32 {
        match <raw::String as Value>::decoding(rest) { Ok((m, x)) => Ok((m, FileOptionsView { php_class_prefix: Some(x), ..v })), Err(e) => Err(e) }
    } else if t == 330u32 {
        match <raw::String as Value>::decoding(rest) { Ok((m, x)) => Ok((m, FileOptionsView { php_namespace: Some(x), ..v })), Err(e) => Err(e) }
    } else if t == 336u32 {
        match <raw::Bool as Value>::decoding(rest) { Ok((m, x)) => Ok((m, FileOptionsView { php_generic_services: Some(x), ..v })), Err(e) => Err(e) }
    } else if t == 354u32 {
        match <raw::String as Value>::decoding(rest) { Ok((m, x)) => Ok((m, FileOptionsView { php_metadata_namespace: Some(x), ..v })), Err(e) => Err(e) }
    } else if t == 362u32 {
        match <raw::String as Value>::decoding(rest) { Ok((m, x)) => Ok((m, FileOptionsView { ruby_package: Some(x), ..v })), Err(e) => Err(e) }
    } else if t == 7994u32 {
        match length_delimited_read(rest) { Err(e) => Err(e), Ok((m, b)) => if depth >= limit { Err(ReadError::RecursionLimitExceeded) } else { match uninterpreted_option_merged(uninterpreted_option_default(), b, depth + 1, limit, skip, eg) { Ok(y) => Ok((m, FileOptionsView { uninterpreted_option: v.uninterpreted_option.push(y), ..v })), Err(e) => Err(e) } } }
    } else {
        match unknown_field_read(v.unknown_fields, t, rest, depth, limit, skip, eg) {
            Ok((m, u)) => Ok((m, FileOptionsView { unknown_fields: u, ..v })),
            Err(e) => Err(e),
        }
    }
}

/// What reading all of `s` into `v` as `FileOptions` fields gives: the message after, or the error.
/// `depth` and `limit` are the reader's depth and recursion limit, `skip` whether it skips
/// unknown fields, and `eg` the end tag of the group it is in.
pub open spec fn file_options_merged(v: FileOptionsView, s: Seq<u8>, depth: nat, limit: nat, skip: bool, eg: Option<Tag>) -> ReadResult<FileOptionsView>
    decreases s.len(),
{
    if s.len() == 0 {
        Ok(v)
    } else {
        match varint_read(s) {
            Err(e) => Err(e),
            Ok((n, w)) => if n < 1 || n > s.len() {
                Err(eof())
            } else {
                match file_options_field_read(v, w as u32, s.skip(n), depth, limit, skip, eg) {
                    Err(e) => Err(e),
                    Ok((m, v2)) => if m < 0 || n + m > s.len() {
                        Err(eof())
                    } else {
                        file_options_merged(v2, s.skip(n + m), depth, limit, skip, eg)
                    },
                }
            },
        }
    }
}

/// Reads a `FileOptions` from the reader as a length delimited value, merging it into `this`, one
/// level deeper.
fn merge_file_options_delimited(this: &mut FileOptions, input: &mut CodedReader) -> (r: ReadResult<()>)
    ensures
        match length_delimited_read(old(input).available()) {
            Err(e) => r == Err::<(), ReadError>(e) && same_config(*old(input), *final(input)),
            Ok((m, b)) => if old(input).depth() >= old(input).recursion_limit() {
                r == Err::<(), ReadError>(ReadError::RecursionLimitExceeded) && same_config(*old(input), *final(input))
            } else {
                match file_options_merged(old(this)@, b, old(input).depth() + 1, old(input).recursion_limit(), skips(*old(input)), old(input).end_group_view()) {
                    Ok(y) => r is Ok && final(this)@ == y && final(input).position() == old(input).position() + m
                        && same_state(*old(input), *final(input)),
                    Err(e) => r == Err::<(), ReadError>(e) && same_config(*old(input), *final(input)),
                }
            },
        },
{
    let rem0 = input.remaining();
    let ghost s = input.available();
    let ghost start = *input;
    let length = match input.read_length() {
        Ok(l) => l,
        Err(e) => return Err(e),
    };
    let rem1 = input.remaining();
    let ghost n0 = input.position() - start.position();
    proof {
        lemma_varint_read_len(s);
        assert(input.available() =~= s.skip(n0));
    }
    let previous = match input.push_length(length) {
        Ok(p) => p,
        Err(e) => return Err(e),
    };
    let rem2 = input.remaining();
    let ghost b = s.subrange(n0, n0 + length@);
    proof {
        assert(input.available() =~= b);
        assert(length_delimited_read(s) == Ok::<(int, Seq<u8>), ReadError>((n0 + length@, b)));
    }
    let ghost pushed = *input;
    match input.increment_recursion_count() {
        Ok(()) => {},
        Err(e) => {
            input.pop_length(previous);
            return Err(e);
        },
    }
    let r = this.merge_from(input);
    let rem3 = input.remaining();
    input.decrement_recursion_count();
    input.pop_length(previous);
    r
}

/// The parts an optional `FileOptions` field with field number `num` is written as: nothing where it
/// is not set, else its tag, its length and its parts.
pub open spec fn file_options_opt_parts(num: u32, o: Option<FileOptionsView>) -> Seq<(bool, Seq<u8>)> {
    match o {
        Some(y) => entry_parts(num, file_options_parts(y)),
        None => Seq::empty(),
    }
}

/// Adds the size of an optional `FileOptions` field with field number `num` to the builder.
fn file_options_opt_size(o: &Option<FileOptions>, b: LengthBuilder, num: FieldNumber) -> (r: Option<LengthBuilder>)
    ensures
        size_added(b@ as int, parts_encodable(file_options_opt_parts(num@, opt_view(*o))), parts_bytes(file_options_opt_parts(num@, opt_view(*o))).len() as int, r),
{
    match o {
        Some(y) => {
            let len = y.calculate_size();
            add_entry_size(b, num, len, Ghost(file_options_parts(y@)))
        },
        None => {
            proof {
                assert(parts_encodable(Seq::<(bool, Seq<u8>)>::empty()));
                assert(parts_bytes(Seq::<(bool, Seq<u8>)>::empty()).len() == 0);
            }
            Some(b)
        },
    }
}

/// Writes an optional `FileOptions` field with field number `num`: nothing where it is not set, else
/// its tag, its length and its fields.
fn write_file_options_opt(o: &Option<FileOptions>, output: &mut CodedWriter, num: FieldNumber) -> (r: WriteResult)
    ensures
        (final(output).written(), r) == parts_written(old(output).written(), old(output).capacity(), file_options_opt_parts(num@, opt_view(*o))),
        final(output).capacity() == old(output).capacity(),
        (*final(final(output).target()))@ == (*final(old(output).target()))@,
{
    match o {
        Some(y) => {
            let ghost p = file_options_parts(y@);
            let ghost head = entry_head(num@, p);
            let ghost w0 = output.written();
            let ghost cap = output.capacity();
            proof {
                lemma_parts_written_append(w0, cap, head, p);
                reveal_with_fuel(parts_written, 3);
                assert(head.drop_first().drop_first() =~= Seq::<(bool, Seq<u8>)>::empty());
                lemma_varint_roundtrip(tag_value(num@, WireType::LengthDelimited) as u64);
            }
            match output.write_tag(Tag::new(num, WireType::LengthDelimited)) {
                Ok(()) => {},
                Err(e) => return Err(e),
            }
            let len = match y.calculate_size() {
                Some(len) => len,
                None => return Err(WriteError::ValueTooLarge),
            };
            proof {
                lemma_varint_roundtrip(len@ as u64);
            }
            match output.write_length(len) {
                Ok(()) => {},
                Err(e) => return Err(e),
            }
            y.write_to(output)
        },
        None => Ok(()),
    }
}

impl FileOptions {
    /// Gets the unknown fields of the message.
    pub fn unknown_fields(&self) -> (r: &UnknownFieldSet)
        ensures
            r@ == self@.unknown_fields,
    {
        &self.unknown_fields
    }

    /// Gets the unknown fields of the message for changing them.
    pub fn unknown_fields_mut(&mut self) -> (r: &mut UnknownFieldSet)
        ensures
            (*r)@ == old(self)@.unknown_fields,
            final(self)@ == (FileOptionsView { unknown_fields: (*final(r))@, ..old(self)@ }),
    {
        &mut self.unknown_fields
    }

    /// Returns whether the message is initialized: whether all its required fields are set.
    pub fn is_initialized(&self) -> (r: bool)
        ensures
            r,
    {
        if !crate::is_initialized(&self.uninterpreted_option) {
            return false;
        }
        true
    }

    /// Calculates the size of the message as it is written: `None` if a part cannot be
    /// written or the size does not fit in a length.
    #[verifier::spinoff_prover]
    #[verifier::rlimit(100)]
    pub fn calculate_size(&self) -> (r: Option<Length>)
        ensures
            opt_length(r) == parts_size(file_options_parts(self@)),
    {
        let ghost v = self@;
        let ghost all = file_options_parts(v);
        let b0 = LengthBuilder::new();
        let ghost d0 = Seq::<(bool, Seq<u8>)>::empty();
        proof {
            reveal(file_options_parts);
            assert(all =~= d0 + all);
        }
        let ghost p1 = opt_field_parts::<raw::String>(1u32, v.java_package);
        let ghost rest1 = opt_field_parts::<raw::String>(8u32, v.java_outer_classname) + (opt_field_parts::<raw::Enum<file_options::OptimizeMode>>(9u32, v.optimize_for) + (opt_field_parts::<raw::Bool>(10u32, v.java_multiple_files) + (opt_field_parts::<raw::String>(11u32, v.go_package) + (opt_field_parts::<raw::Bool>(16u32, v.cc_generic_services) + (opt_field_parts::<raw::Bool>(17u32, v.java_generic_services) + (opt_field_parts::<raw::Bool>(18u32, v.py_generic_services) + (opt_field_parts::<raw::Bool>(20u32, v.java_generate_equals_and_hash) + (opt_field_parts::<raw::Bool>(23u32, v.deprecated) + (opt_field_parts::<raw::Bool>(27u32, v.java_string_check_utf8) + (opt_field_parts::<raw::Bool>(31u32, v.cc_enable_arenas) + (opt_field_parts::<raw::String>(36u32, v.objc_class_prefix) + (opt_field_parts::<raw::String>(37u32, v.csharp_namespace) + (opt_field_parts::<raw::String>(39u32, v.swift_prefix) + (opt_field_parts::<raw::String>(40u32, v.php_class_prefix) + (opt_field_parts::<raw::String>(41u32, v.php_namespace) + (opt_field_parts::<raw::Bool>(42u32, v.php_generic_services) + (opt_field_parts::<raw::String>(44u32, v.php_metadata_namespace) + (opt_field_parts::<raw::String>(45u32, v.ruby_package) + (uninterpreted_option_seq_parts(999u32, v.uninterpreted_option) + (set_parts(v.unknown_fields)))))))))))))))))))));
        proof {
            assert(self@.java_package == opt_inner_view::<raw::String>(self.java_package));
            assert(all == d0 + (p1 + rest1));
            assert(d0 + (p1 + rest1) =~= d0 + p1 + rest1);
        }
        let r1 = add_opt_field::<raw::String>(b0, FieldNumber::new_unchecked(1), &self.java_package);
        proof {
            lemma_size_chain(0, d0, p1, Some(b0), r1);
            if r1 is None {
                lemma_size_chain(0, d0 + p1, rest1, r1, r1);
            }
        }
        let b1 = match r1 {
            Some(b) => b,
            None => return None,
        };
        let ghost d1 = d0 + p1;
        let ghost p2 = opt_field_parts::<raw::String>(8u32, v.java_outer_classname);
        let ghost rest2 = opt_field_parts::<raw::Enum<file_options::OptimizeMode>>(9u32, v.optimize_for) + (opt_field_parts::<raw::Bool>(10u32, v.java_multiple_files) + (opt_field_parts::<raw::String>(11u32, v.go_package) + (opt_field_parts::<raw::Bool>(16u32, v.cc_generic_services) + (opt_field_parts::<raw::Bool>(17u32, v.java_generic_services) + (opt_field_parts::<raw::Bool>(18u32, v.py_generic_services) + (opt_field_parts::<raw::Bool>(20u32, v.java_generate_equals_and_hash) + (opt_field_parts::<raw::Bool>(23u32, v.deprecated) + (opt_field_parts::<raw::Bool>(27u32, v.java_string_check_utf8) + (opt_field_parts::<raw::Bool>(31u32, v.cc_enable_arenas) + (opt_field_parts::<raw::String>(36u32, v.objc_class_prefix) + (opt_field_parts::<raw::String>(37u32, v.csharp_namespace) + (opt_field_parts::<raw::String>(39u32, v.swift_prefix) + (opt_field_parts::<raw::String>(40u32, v.php_class_prefix) + (opt_field_parts::<raw::String>(41u32, v.php_namespace) + (opt_field_parts::<raw::Bool>(42u32, v.php_generic_services) + (opt_field_parts::<raw::String>(44u32, v.php_metadata_namespace) + (opt_field_parts::<raw::String>(45u32, v.ruby_package) + (uninterpreted_option_seq_parts(999u32, v.uninterpreted_option) + (set_parts(v.unknown_fields))))))))))))))))))));
        proof {
            assert(self@.java_outer_classname == opt_inner_view::<raw::String>(self.java_outer_classname));
            assert(all == d1 + (p2 + rest2));
            assert(d1 + (p2 + rest2) =~= d1 + p2 + rest2);
        }
        let r2 = add_opt_field::<raw::String>(b1, FieldNumber::new_unchecked(8), &self.java_outer_classname);
        proof {
            lemma_size_chain(0, d1, p2, Some(b1), r2);
            if r2 is None {
                lemma_size_chain(0, d1 + p2, rest2, r2, r2);
            }
        }
        let b2 = match r2 {
            Some(b) => b,
            None => return None,
        };
        let ghost d2 = d1 + p2;
        let ghost p3 = opt_field_parts::<raw::Enum<file_options::OptimizeMode>>(9u32, v.optimize_for);
        let ghost rest3 = opt_field_parts::<raw::Bool>(10u32, v.java_multiple_files) + (opt_field_parts::<raw::String>(11u32, v.go_package) + (opt_field_parts::<raw::Bool>(16u32, v.cc_generic_services) + (opt_field_parts::<raw::Bool>(17u32, v.java_generic_services) + (opt_field_parts::<raw::Bool>(18u32, v.py_generic_services) + (opt_field_parts::<raw::Bool>(20u32, v.java_generate_equals_and_hash) + (opt_field_parts::<raw::Bool>(23u32, v.deprecated) + (opt_field_parts::<raw::Bool>(27u32, v.java_string_check_utf8) + (opt_field_parts::<raw::Bool>(31u32, v.cc_enable_arenas) + (opt_field_parts::<raw::String>(36u32, v.objc_class_prefix) + (opt_field_parts::<raw::String>(37u32, v.csharp_namespace) + (opt_field_parts::<raw::String>(39u32, v.swift_prefix) + (opt_field_parts::<raw::String>(40u32, v.php_class_prefix) + (opt_field_parts::<raw::String>(41u32, v.php_namespace) + (opt_field_parts::<raw::Bool>(42u32, v.php_generic_services) + (opt_field_parts::<raw::String>(44u32, v.php_metadata_namespace) + (opt_field_parts::<raw::String>(45u32, v.ruby_package) + (uninterpreted_option_seq_parts(999u32, v.uninterpreted_option) + (set_parts(v.unknown_fields)))))))))))))))))));
        proof {
            assert(self@.optimize_for == opt_inner_view::<raw::Enum<file_options::OptimizeMode>>(self.optimize_for));
            assert(all == d2 + (p3 + rest3));
            assert(d2 + (p3 + rest3) =~= d2 + p3 + rest3);
        }
        let r3 = add_opt_field::<raw::Enum<file_options::OptimizeMode>>(b2, FieldNumber::new_unchecked(9), &self.optimize_for);
        proof {
            lemma_size_chain(0, d2, p3, Some(b2), r3);
            if r3 is None {
                lemma_size_chain(0, d2 + p3, rest3, r3, r3);
            }
        }
        let b3 = match r3 {
            Some(b) => b,
            None => return None,
        };
        let ghost d3 = d2 + p3;
        let ghost p4 = opt_field_parts::<raw::Bool>(10u32, v.java_multiple_files);
        let ghost rest4 = opt_field_parts::<raw::String>(11u32, v.go_package) + (opt_field_parts::<raw::Bool>(16u32, v.cc_generic_services) + (opt_field_parts::<raw::Bool>(17u32, v.java_generic_services) + (opt_field_parts::<raw::Bool>(18u32, v.py_generic_services) + (opt_field_parts::<raw::Bool>(20u32, v.java_generate_equals_and_hash) + (opt_field_parts::<raw::Bool>(23u32, v.deprecated) + (opt_field_parts::<raw::Bool>(27u32, v.java_string_check_utf8) + (opt_field_parts::<raw::Bool>(31u32, v.cc_enable_arenas) + (opt_field_parts::<raw::String>(36u32, v.objc_class_prefix) + (opt_field_parts::<raw::String>(37u32, v.csharp_namespace) + (opt_field_parts::<raw::String>(39u32, v.swift_prefix) + (opt_field_parts::<raw::String>(40u32, v.php_class_prefix) + (opt_field_parts::<raw::String>(41u32, v.php_namespace) + (opt_field_parts::<raw::Bool>(42u32, v.php_generic_services) + (opt_field_parts::<raw::String>(44u32, v.php_metadata_namespace) + (opt_field_parts::<raw::String>(45u32, v.ruby_package) + (uninterpreted_option_seq_parts(999u32, v.uninterpreted_option) + (set_parts(v.unknown_fields))))))))))))))))));
        proof {
            assert(self@.java_multiple_files == opt_inner_view::<raw::Bool>(self.java_multiple_files));
            assert(all == d3 + (p4 + rest4));
            assert(d3 + (p4 + rest4) =~= d3 + p4 + rest4);
        }
        let r4 = add_opt_field::<raw::Bool>(b3, FieldNumber::new_unchecked(10), &self.java_multiple_files);
        proof {
            lemma_size_chain(0, d3, p4, Some(b3), r4);
            if r4 is None {
                lemma_size_chain(0, d3 + p4, rest4, r4, r4);
            }
        }
        let b4 = match r4 {
            Some(b) => b,
            None => return None,
        };
        let ghost d4 = d3 + p4;
        let ghost p5 = opt_field_parts::<raw::String>(11u32, v.go_package);
        let ghost rest5 = opt_field_parts::<raw::Bool>(16u32, v.cc_generic_services) + (opt_field_parts::<raw::Bool>(17u32, v.java_generic_services) + (opt_field_parts::<raw::Bool>(18u32, v.py_generic_services) + (opt_field_parts::<raw::Bool>(20u32, v.java_generate_equals_and_hash) + (opt_field_parts::<raw::Bool>(23u32, v.deprecated) + (opt_field_parts::<raw::Bool>(27u32, v.java_string_check_utf8) + (opt_field_parts::<raw::Bool>(31u32, v.cc_enable_arenas) + (opt_field_parts::<raw::String>(36u32, v.objc_class_prefix) + (opt_field_parts::<raw::String>(37u32, v.csharp_namespace) + (opt_field_parts::<raw::String>(39u32, v.swift_prefix) + (opt_field_parts::<raw::String>(40u32, v.php_class_prefix) + (opt_field_parts::<raw::String>(41u32, v.php_namespace) + (opt_field_parts::<raw::Bool>(42u32, v.php_generic_services) + (opt_field_parts::<raw::String>(44u32, v.php_metadata_namespace) + (opt_field_parts::<raw::String>(45u32, v.ruby_package) + (uninterpreted_option_seq_parts(999u32, v.uninterpreted_option) + (set_parts(v.unknown_fields)))))))))))))))));
        proof {
            assert(self@.go_package == opt_inner_view::<raw::String>(self.go_package));
            assert(all == d4 + (p5 + rest5));
            assert(d4 + (p5 + rest5) =~= d4 + p5 + rest5);
        }
        let r5 = add_opt_field::<raw::String>(b4, FieldNumber::new_unchecked(11), &self.go_package);
        proof {
            lemma_size_chain(0, d4, p5, Some(b4), r5);
            if r5 is None {
                lemma_size_chain(0, d4 + p5, rest5, r5, r5);
            }
        }
        let b5 = match r5 {
            Some(b) => b,
            None => return None,
        };
        let ghost d5 = d4 + p5;
        let ghost p6 = opt_field_parts::<raw::Bool>(16u32, v.cc_generic_services);
        let ghost rest6 = opt_field_parts::<raw::Bool>(17u32, v.java_generic_services) + (opt_field_parts::<raw::Bool>(18u32, v.py_generic_services) + (opt_field_parts::<raw::Bool>(20u32, v.java_generate_equals_and_hash) + (opt_field_parts::<raw::Bool>(23u32, v.deprecated) + (opt_field_parts::<raw::Bool>(27u32, v.java_string_check_utf8) + (opt_field_parts::<raw::Bool>(31u32, v.cc_enable_arenas) + (opt_field_parts::<raw::String>(36u32, v.objc_class_prefix) + (opt_field_parts::<raw::String>(37u32, v.csharp_namespace) + (opt_field_parts::<raw::String>(39u32, v.swift_prefix) + (opt_field_parts::<raw::String>(40u32, v.php_class_prefix) + (opt_field_parts::<raw::String>(41u32, v.php_namespace) + (opt_field_parts::<raw::Bool>(42u32, v.php_generic_services) + (opt_field_parts::<raw::String>(44u32, v.php_metadata_namespace) + (opt_field_parts::<raw::String>(45u32, v.ruby_package) + (uninterpreted_option_seq_parts(999u32, v.uninterpreted_option) + (set_parts(v.unknown_fields))))))))))))))));
        proof {
            assert(self@.cc_generic_services == opt_inner_view::<raw::Bool>(self.cc_generic_services));
            assert(all == d5 + (p6 + rest6));
            assert(d5 + (p6 + rest6) =~= d5 + p6 + rest6);
        }
        let r6 = add_opt_field::<raw::Bool>(b5, FieldNumber::new_unchecked(16), &self.cc_generic_services);
        proof {
            lemma_size_chain(0, d5, p6, Some(b5), r6);
            if r6 is None {
                lemma_size_chain(0, d5 + p6, rest6, r6, r6);
            }
        }
        let b6 = match r6 {
            Some(b) => b,
            None => return None,
        };
        let ghost d6 = d5 + p6;
        let ghost p7 = opt_field_parts::<raw::Bool>(17u32, v.java_generic_services);
        let ghost rest7 = opt_field_parts::<raw::Bool>(18u32, v.py_generic_services) + (opt_field_parts::<raw::Bool>(20u32, v.java_generate_equals_and_hash) + (opt_field_parts::<raw::Bool>(23u32, v.deprecated) + (opt_field_parts::<raw::Bool>(27u32, v.java_string_check_utf8) + (opt_field_parts::<raw::Bool>(31u32, v.cc_enable_arenas) + (opt_field_parts::<raw::String>(36u32, v.objc_class_prefix) + (opt_field_parts::<raw::String>(37u32, v.csharp_namespace) + (opt_field_parts::<raw::String>(39u32, v.swift_prefix) + (opt_field_parts::<raw::String>(40u32, v.php_class_prefix) + (opt_field_parts::<raw::String>(41u32, v.php_namespace) + (opt_field_parts::<raw::Bool>(42u32, v.php_generic_services) + (opt_field_parts::<raw::String>(44u32, v.php_metadata_namespace) + (opt_field_parts::<raw::String>(45u32, v.ruby_package) + (uninterpreted_option_seq_parts(999u32, v.uninterpreted_option) + (set_parts(v.unknown_fields)))))))))))))));
        proof {
            assert(self@.java_generic_services == opt_inner_view::<raw::Bool>(self.java_generic_services));
            assert(all == d6 + (p7 + rest7));
            assert(d6 + (p7 + rest7) =~= d6 + p7 + rest7);
        }
        let r7 = add_opt_field::<raw::Bool>(b6, FieldNumber::new_unchecked(17), &self.java_generic_services);
        proof {
            lemma_size_chain(0, d6, p7, Some(b6), r7);
            if r7 is None {
                lemma_size_chain(0, d6 + p7, rest7, r7, r7);
            }
        }
        let b7 = match r7 {
            Some(b) => b,
            None => return None,
        };
        let ghost d7 = d6 + p7;
        let ghost p8 = opt_field_parts::<raw::Bool>(18u32, v.py_generic_services);
        let ghost rest8 = opt_field_parts::<raw::Bool>(20u32, v.java_generate_equals_and_hash) + (opt_field_parts::<raw::Bool>(23u32, v.deprecated) + (opt_field_parts::<raw::Bool>(27u32, v.java_string_check_utf8) + (opt_field_parts::<raw::Bool>(31u32, v.cc_enable_arenas) + (opt_field_parts::<raw::String>(36u32, v.objc_class_prefix) + (opt_field_parts::<raw::String>(37u32, v.csharp_namespace) + (opt_field_parts::<raw::String>(39u32, v.swift_prefix) + (opt_field_parts::<raw::String>(40u32, v.php_class_prefix) + (opt_field_parts::<raw::String>(41u32, v.php_namespace) + (opt_field_parts::<raw::Bool>(42u32, v.php_generic_services) + (opt_field_parts::<raw::String>(44u32, v.php_metadata_namespace) + (opt_field_parts::<raw::String>(45u32, v.ruby_package) + (uninterpreted_option_seq_parts(999u32, v.uninterpreted_option) + (set_parts(v.unknown_fields))))))))))))));
        proof {
            assert(self@.py_generic_services == opt_inner_view::<raw::Bool>(self.py_generic_services));
            assert(all == d7 + (p8 + rest8));
            assert(d7 + (p8 + rest8) =~= d7 + p8 + rest8);
        }
        let r8 = add_opt_field::<raw::Bool>(b7, FieldNumber::new_unchecked(18), &self.py_generic_services);
        proof {
            lemma_size_chain(0, d7, p8, Some(b7), r8);
            if r8 is None {
                lemma_size_chain(0, d7 + p8, rest8, r8, r8);
            }
        }
        let b8 = match r8 {
            Some(b) => b,
            None => return None,
        };
        let ghost d8 = d7 + p8;
        let ghost p9 = opt_field_parts::<raw::Bool>(20u32, v.java_generate_equals_and_hash);
        let ghost rest9 = opt_field_parts::<raw::Bool>(23u32, v.deprecated) + (opt_field_parts::<raw::Bool>(27u32, v.java_string_check_utf8) + (opt_field_parts::<raw::Bool>(31u32, v.cc_enable_arenas) + (opt_field_parts::<raw::String>(36u32, v.objc_class_prefix) + (opt_field_parts::<raw::String>(37u32, v.csharp_namespace) + (opt_field_parts::<raw::String>(39u32, v.swift_prefix) + (opt_field_parts::<raw::String>(40u32, v.php_class_prefix) + (opt_field_parts::<raw::String>(41u32, v.php_namespace) + (opt_field_parts::<raw::Bool>(42u32, v.php_generic_services) + (opt_field_parts::<raw::String>(44u32, v.php_metadata_namespace) + (opt_field_parts::<raw::String>(45u32, v.ruby_package) + (uninterpreted_option_seq_parts(999u32, v.uninterpreted_option) + (set_parts(v.unknown_fields)))))))))))));
        proof {
            assert(self@.java_generate_equals_and_hash == opt_inner_view::<raw::Bool>(self.java_generate_equals_and_hash));
            assert(all == d8 + (p9 + rest9));
            assert(d8 + (p9 + rest9) =~= d8 + p9 + rest9);
        }
        let r9 = add_opt_field::<raw::Bool>(b8, FieldNumber::new_unchecked(20), &self.java_generate_equals_and_hash);
        proof {
            lemma_size_chain(0, d8, p9, Some(b8), r9);
            if r9 is None {
                lemma_size_chain(0, d8 + p9, rest9, r9, r9);
            }
        }
        let b9 = match r9 {
            Some(b) => b,
            None => return None,
        };
        let ghost d9 = d8 + p9;
        let ghost p10 = opt_field_parts::<raw::Bool>(23u32, v.deprecated);
        let ghost rest10 = opt_field_parts::<raw::Bool>(27u32, v.java_string_check_utf8) + (opt_field_parts::<raw::Bool>(31u32, v.cc_enable_arenas) + (opt_field_parts::<raw::String>(36u32, v.objc_class_prefix) + (opt_field_parts::<raw::String>(37u32, v.csharp_namespace) + (opt_field_parts::<raw::String>(39u32, v.swift_prefix) + (opt_field_parts::<raw::String>(40u32, v.php_class_prefix) + (opt_field_parts::<raw::String>(41u32, v.php_namespace) + (opt_field_parts::<raw::Bool>(42u32, v.php_generic_services) + (opt_field_parts::<raw::String>(44u32, v.php_metadata_namespace) + (opt_field_parts::<raw::String>(45u32, v.ruby_package) + (uninterpreted_option_seq_parts(999u32, v.uninterpreted_option) + (set_parts(v.unknown_fields))))))))))));
        proof {
            assert(self@.deprecated == opt_inner_view::<raw::Bool>(self.deprecated));
            assert(all == d9 + (p10 + rest10));
            assert(d9 + (p10 + rest10) =~= d9 + p10 + rest10);
        }
        let r10 = add_opt_field::<raw::Bool>(b9, FieldNumber::new_unchecked(23), &self.deprecated);
        proof {
            lemma_size_chain(0, d9, p10, Some(b9), r10);
            if r10 is None {
                lemma_size_chain(0, d9 + p10, rest10, r10, r10);
            }
        }
        let b10 = match r10 {
            Some(b) => b,
            None => return None,
        };
        let ghost d10 = d9 + p10;
        let ghost p11 = opt_field_parts::<raw::Bool>(27u32, v.java_string_check_utf8);
        let ghost rest11 = opt_field_parts::<raw::Bool>(31u32, v.cc_enable_arenas) + (opt_field_parts::<raw::String>(36u32, v.objc_class_prefix) + (opt_field_parts::<raw::String>(37u32, v.csharp_namespace) + (opt_field_parts::<raw::String>(39u32, v.swift_prefix) + (opt_field_parts::<raw::String>(40u32, v.php_class_prefix) + (opt_field_parts::<raw::String>(41u32, v.php_namespace) + (opt_field_parts::<raw::Bool>(42u32, v.php_generic_services) + (opt_field_parts::<raw::String>(44u32, v.php_metadata_namespace) + (opt_field_parts::<raw::String>(45u32, v.ruby_package) + (uninterpreted_option_seq_parts(999u32, v.uninterpreted_option) + (set_parts(v.unknown_fields)))))))))));
        proof {
            assert(self@.java_string_check_utf8 == opt_inner_view::<raw::Bool>(self.java_string_check_utf8));
            assert(all == d10 + (p11 + rest11));
            assert(d10 + (p11 + rest11) =~= d10 + p11 + rest11);
        }
        let r11 = add_opt_field::<raw::Bool>(b10, FieldNumber::new_unchecked(27), &self.java_string_check_utf8);
        proof {
            lemma_size_chain(0, d10, p11, Some(b10), r11);
            if r11 is None {
                lemma_size_chain(0, d10 + p11, rest11, r11, r11);
            }
        }
        let b11 = match r11 {
            Some(b) => b,
            None => return None,
        };
        let ghost d11 = d10 + p11;
        let ghost p12 = opt_field_parts::<raw::Bool>(31u32, v.cc_enable_arenas);
        let ghost rest12 = opt_field_parts::<raw::String>(36u32, v.objc_class_prefix) + (opt_field_parts::<raw::String>(37u32, v.csharp_namespace) + (opt_field_parts::<raw::String>(39u32, v.swift_prefix) + (opt_field_parts::<raw::String>(40u32, v.php_class_prefix) + (opt_field_parts::<raw::String>(41u32, v.php_namespace) + (opt_field_parts::<raw::Bool>(42u32, v.php_generic_services) + (opt_field_parts::<raw::String>(44u32, v.php_metadata_namespace) + (opt_field_parts::<raw::String>(45u32, v.ruby_package) + (uninterpreted_option_seq_parts(999u32, v.uninterpreted_option) + (set_parts(v.unknown_fields))))))))));
        proof {
            assert(self@.cc_enable_arenas == opt_inner_view::<raw::Bool>(self.cc_enable_arenas));
            assert(all == d11 + (p12 + rest12));
            assert(d11 + (p12 + rest12) =~= d11 + p12 + rest12);
        }
        let r12 = add_opt_field::<raw::Bool>(b11, FieldNumber::new_unchecked(31), &self.cc_enable_arenas);
        proof {
            lemma_size_chain(0, d11, p12, Some(b11), r12);
            if r12 is None {
                lemma_size_chain(0, d11 + p12, rest12, r12, r12);
            }
        }
        let b12 = match r12 {
            Some(b) => b,
            None => return None,
        };
        let ghost d12 = d11 + p12;
        let ghost p13 = opt_field_parts::<raw::String>(36u32, v.objc_class_prefix);
        let ghost rest13 = opt_field_parts::<raw::String>(37u32, v.csharp_namespace) + (opt_field_parts::<raw::String>(39u32, v.swift_prefix) + (opt_field_parts::<raw::String>(40u32, v.php_class_prefix) + (opt_field_parts::<raw::String>(41u32, v.php_namespace) + (opt_field_parts::<raw::Bool>(42u32, v.php_generic_services) + (opt_field_parts::<raw::String>(44u32, v.php_metadata_namespace) + (opt_field_parts::<raw::String>(45u32, v.ruby_package) + (uninterpreted_option_seq_parts(999u32, v.uninterpreted_option) + (set_parts(v.unknown_fields)))))))));
        proof {
            assert(self@.objc_class_prefix == opt_inner_view::<raw::String>(self.objc_class_prefix));
            assert(all == d12 + (p13 + rest13));
            assert(d12 + (p13 + rest13) =~= d12 + p13 + rest13);
        }
        let r13 = add_opt_field::<raw::String>(b12, FieldNumber::new_unchecked(36), &self.objc_class_prefix);
        proof {
            lemma_size_chain(0, d12, p13, Some(b12), r13);
            if r13 is None {
                lemma_size_chain(0, d12 + p13, rest13, r13, r13);
            }
        }
        let b13 = match r13 {
            Some(b) => b,
            None => return None,
        };
        let ghost d13 = d12 + p13;
        let ghost p14 = opt_field_parts::<raw::String>(37u32, v.csharp_namespace);
        let ghost rest14 = opt_field_parts::<raw::String>(39u32, v.swift_prefix) + (opt_field_parts::<raw::String>(40u32, v.php_class_prefix) + (opt_field_parts::<raw::String>(41u32, v.php_namespace) + (opt_field_parts::<raw::Bool>(42u32, v.php_generic_services) + (opt_field_parts::<raw::String>(44u32, v.php_metadata_namespace) + (opt_field_parts::<raw::String>(45u32, v.ruby_package) + (uninterpreted_option_seq_parts(999u32, v.uninterpreted_option) + (set_parts(v.unknown_fields))))))));
        proof {
            assert(self@.csharp_namespace == opt_inner_view::<raw::String>(self.csharp_namespace));
            assert(all == d13 + (p14 + rest14));
            assert(d13 + (p14 + rest14) =~= d13 + p14 + rest14);
        }
        let r14 = add_opt_field::<raw::String>(b13, FieldNumber::new_unchecked(37), &self.csharp_namespace);
        proof {
            lemma_size_chain(0, d13, p14, Some(b13), r14);
            if r14 is None {
                lemma_size_chain(0, d13 + p14, rest14, r14, r14);
            }
        }
        let b14 = match r14 {
            Some(b) => b,
            None => return None,
        };
        let ghost d14 = d13 + p14;
        let ghost p15 = opt_field_parts::<raw::String>(39u32, v.swift_prefix);
        let ghost rest15 = opt_field_parts::<raw::String>(40u32, v.php_class_prefix) + (opt_field_parts::<raw::String>(41u32, v.php_namespace) + (opt_field_parts::<raw::Bool>(42u32, v.php_generic_services) + (opt_field_parts::<raw::String>(44u32, v.php_metadata_namespace) + (opt_field_parts::<raw::String>(45u32, v.ruby_package) + (uninterpreted_option_seq_parts(999u32, v.uninterpreted_option) + (set_parts(v.unknown_fields)))))));
        proof {
            assert(self@.swift_prefix == opt_inner_view::<raw::String>(self.swift_prefix));
            assert(all == d14 + (p15 + rest15));
            assert(d14 + (p15 + rest15) =~= d14 + p15 + rest15);
        }
        let r15 = add_opt_field::<raw::String>(b14, FieldNumber::new_unchecked(39), &self.swift_prefix);
        proof {
            lemma_size_chain(0, d14, p15, Some(b14), r15);
            if r15 is None {
                lemma_size_chain(0, d14 + p15, rest15, r15, r15);
            }
        }
        let b15 = match r15 {
            Some(b) => b,
            None => return None,
        };
        let ghost d15 = d14 + p15;
        let ghost p16 = opt_field_parts::<raw::String>(40u32, v.php_class_prefix);
        let ghost rest16 = opt_field_parts::<raw::String>(41u32, v.php_namespace) + (opt_field_parts::<raw::Bool>(42u32, v.php_generic_services) + (opt_field_parts::<raw::String>(44u32, v.php_metadata_namespace) + (opt_field_parts::<raw::String>(45u32, v.ruby_package) + (uninterpreted_option_seq_parts(999u32, v.uninterpreted_option) + (set_parts(v.unknown_fields))))));
        proof {
            assert(self@.php_class_prefix == opt_inner_view::<raw::String>(self.php_class_prefix));
            assert(all == d15 + (p16 + rest16));
            assert(d15 + (p16 + rest16) =~= d15 + p16 + rest16);
        }
        let r16 = add_opt_field::<raw::String>(b15, FieldNumber::new_unchecked(40), &self.php_class_prefix);
        proof {
            lemma_size_chain(0, d15, p16, Some(b15), r16);
            if r16 is None {
                lemma_size_chain(0, d15 + p16, rest16, r16, r16);
            }
        }
        let b16 = match r16 {
            Some(b) => b,
            None => return None,
        };
        let ghost d16 = d15 + p16;
        let ghost p17 = opt_field_parts::<raw::String>(41u32, v.php_namespace);
        let ghost rest17 = opt_field_parts::<raw::Bool>(42u32, v.php_generic_services) + (opt_field_parts::<raw::String>(44u32, v.php_metadata_namespace) + (opt_field_parts::<raw::String>(45u32, v.ruby_package) + (uninterpreted_option_seq_parts(999u32, v.uninterpreted_option) + (set_parts(v.unknown_fields)))));
        proof {
            assert(self@.php_namespace == opt_inner_view::<raw::String>(self.php_namespace));
            assert(all == d16 + (p17 + rest17));
            assert(d16 + (p17 + rest17) =~= d16 + p17 + rest17);
        }
        let r17 = add_opt_field::<raw::String>(b16, FieldNumber::new_unchecked(41), &self.php_namespace);
        proof {
            lemma_size_chain(0, d16, p17, Some(b16), r17);
            if r17 is None {
                lemma_size_chain(0, d16 + p17, rest17, r17, r17);
            }
        }
        let b17 = match r17 {
            Some(b) => b,
            None => return None,
        };
        let ghost d17 = d16 + p17;
        let ghost p18 = opt_field_parts::<raw::Bool>(42u32, v.php_generic_services);
        let ghost rest18 = opt_field_parts::<raw::String>(44u32, v.php_metadata_namespace) + (opt_field_parts::<raw::String>(45u32, v.ruby_package) + (uninterpreted_option_seq_parts(999u32, v.uninterpreted_option) + (set_parts(v.unknown_fields))));
        proof {
            assert(self@.php_generic_services == opt_inner_view::<raw::Bool>(self.php_generic_services));
            assert(all == d17 + (p18 + rest18));
            assert(d17 + (p18 + rest18) =~= d17 + p18 + rest18);
        }
        let r18 = add_opt_field::<raw::Bool>(b17, FieldNumber::new_unchecked(42), &self.php_generic_services);
        proof {
            lemma_size_chain(0, d17, p18, Some(b17), r18);
            if r18 is None {
                lemma_size_chain(0, d17 + p18, rest18, r18, r18);
            }
        }
        let b18 = match r18 {
            Some(b) => b,
            None => return None,
        };
        let ghost d18 = d17 + p18;
        let ghost p19 = opt_field_parts::<raw::String>(44u32, v.php_metadata_namespace);
        let ghost rest19 = opt_field_parts::<raw::String>(45u32, v.ruby_package) + (uninterpreted_option_seq_parts(999u32, v.uninterpreted_option) + (set_parts(v.unknown_fields)));
        proof {
            assert(self@.php_metadata_namespace == opt_inner_view::<raw::String>(self.php_metadata_namespace));
            assert(all == d18 + (p19 + rest19));
            assert(d18 + (p19 + rest19) =~= d18 + p19 + rest19);
        }
        let r19 = add_opt_field::<raw::String>(b18, FieldNumber::new_unchecked(44), &self.php_metadata_namespace);
        proof {
            lemma_size_chain(0, d18, p19, Some(b18), r19);
            if r19 is None {
                lemma_size_chain(0, d18 + p19, rest19, r19, r19);
            }
        }
        let b19 = match r19 {
            Some(b) => b,
            None => return None,
        };
        let ghost d19 = d18 + p19;
        let ghost p20 = opt_field_parts::<raw::String>(45u32, v.ruby_package);
        let ghost rest20 = uninterpreted_option_seq_parts(999u32, v.uninterpreted_option) + (set_parts(v.unknown_fields));
        proof {
            assert(self@.ruby_package == opt_inner_view::<raw::String>(self.ruby_package));
            assert(all == d19 + (p20 + rest20));
            assert(d19 + (p20 + rest20) =~= d19 + p20 + rest20);
        }
        let r20 = add_opt_field::<raw::String>(b19, FieldNumber::new_unchecked(45), &self.ruby_package);
        proof {
            lemma_size_chain(0, d19, p20, Some(b19), r20);
            if r20 is None {
                lemma_size_chain(0, d19 + p20, rest20, r20, r20);
            }
        }
        let b20 = match r20 {
            Some(b) => b,
            None => return None,
        };
        let ghost d20 = d19 + p20;
        let ghost p21 = uninterpreted_option_seq_parts(999u32, v.uninterpreted_option);
        let ghost rest21 = set_parts(v.unknown_fields);
        proof {
            assert(all == d20 + (p21 + rest21));
            assert(d20 + (p21 + rest21) =~= d20 + p21 + rest21);
        }
        let r21 = uninterpreted_option_values_size(&self.uninterpreted_option, b20, FieldNumber::new_unchecked(999));
        proof {
            lemma_size_chain(0, d20, p21, Some(b20), r21);
            if r21 is None {
                lemma_size_chain(0, d20 + p21, rest21, r21, r21);
            }
        }
        let b21 = match r21 {
            Some(b) => b,
            None => return None,
        };
        let ghost d21 = d20 + p21;
        let ghost p22 = set_parts(v.unknown_fields);
        let ghost rest22 = Seq::<(bool, Seq<u8>)>::empty();
        proof {
            assert(all == d21 + p22);
            assert(p22 + rest22 =~= p22);
            assert(d21 + (p22 + rest22) =~= d21 + p22 + rest22);
        }
        let r22 = self.unknown_fields.calculate_size(b21);
        proof {
            lemma_size_chain(0, d21, p22, Some(b21), r22);
            if r22 is None {
                lemma_size_chain(0, d21 + p22, rest22, r22, r22);
            }
        }
        let b22 = match r22 {
            Some(b) => b,
            None => return None,
        };
        let ghost d22 = d21 + p22;
        Some(b22.build())
    }

    /// Writes the message to the writer: its fields that are set, in field number order, then
    /// its unknown fields.
    #[verifier::spinoff_prover]
    #[verifier::rlimit(100)]
    pub fn write_to(&self, output: &mut CodedWriter) -> (r: WriteResult)
        ensures
            (final(output).written(), r) == parts_written(old(output).written(), old(output).capacity(), file_options_parts(self@)),
            final(output).capacity() == old(output).capacity(),
            (*final(final(output).target()))@ == (*final(old(output).target()))@,
    {
        let ghost v = self@;
        let ghost all = file_options_parts(v);
        let ghost start = output.written();
        let ghost cap = output.capacity();
        let ghost d0 = Seq::<(bool, Seq<u8>)>::empty();
        proof {
            reveal(file_options_parts);
            assert(all =~= d0 + all);
        }
        let ghost p1 = opt_field_parts::<raw::String>(1u32, v.java_package);
        let ghost rest1 = opt_field_parts::<raw::String>(8u32, v.java_outer_classname) + (opt_field_parts::<raw::Enum<file_options::OptimizeMode>>(9u32, v.optimize_for) + (opt_field_parts::<raw::Bool>(10u32, v.java_multiple_files) + (opt_field_parts::<raw::String>(11u32, v.go_package) + (opt_field_parts::<raw::Bool>(16u32, v.cc_generic_services) + (opt_field_parts::<raw::Bool>(17u32, v.java_generic_services) + (opt_field_parts::<raw::Bool>(18u32, v.py_generic_services) + (opt_field_parts::<raw::Bool>(20u32, v.java_generate_equals_and_hash) + (opt_field_parts::<raw::Bool>(23u32, v.deprecated) + (opt_field_parts::<raw::Bool>(27u32, v.java_string_check_utf8) + (opt_field_parts::<raw::Bool>(31u32, v.cc_enable_arenas) + (opt_field_parts::<raw::String>(36u32, v.objc_class_prefix) + (opt_field_parts::<raw::String>(37u32, v.csharp_namespace) + (opt_field_parts::<raw::String>(39u32, v.swift_prefix) + (opt_field_parts::<raw::String>(40u32, v.php_class_prefix) + (opt_field_parts::<raw::String>(41u32, v.php_namespace) + (opt_field_parts::<raw::Bool>(42u32, v.php_generic_services) + (opt_field_parts::<raw::String>(44u32, v.php_metadata_namespace) + (opt_field_parts::<raw::String>(45u32, v.ruby_package) + (uninterpreted_option_seq_parts(999u32, v.uninterpreted_option) + (set_parts(v.unknown_fields)))))))))))))))))))));
        proof {
            assert(self@.java_package == opt_inner_view::<raw::String>(self.java_package));
            assert(all == d0 + (p1 + rest1));
            assert(d0 + (p1 + rest1) =~= d0 + p1 + rest1);
            lemma_parts_written_append(start, cap, d0, p1);
            lemma_parts_written_append(start, cap, d0 + p1, rest1);
        }
        match write_opt_field::<raw::String>(output, FieldNumber::new_unchecked(1), &self.java_package) {
            Ok(()) => {},
            Err(e) => return Err(e),
        }
        let ghost d1 = d0 + p1;
        let ghost p2 = opt_field_parts::<raw::String>(8u32, v.java_outer_classname);
        let ghost rest2 = opt_field_parts::<raw::Enum<file_options::OptimizeMode>>(9u32, v.optimize_for) + (opt_field_parts::<raw::Bool>(10u32, v.java_multiple_files) + (opt_field_parts::<raw::String>(11u32, v.go_package) + (opt_field_parts::<raw::Bool>(16u32, v.cc_generic_services) + (opt_field_parts::<raw::Bool>(17u32, v.java_generic_services) + (opt_field_parts::<raw::Bool>(18u32, v.py_generic_services) + (opt_field_parts::<raw::Bool>(20u32, v.java_generate_equals_and_hash) + (opt_field_parts::<raw::Bool>(23u32, v.deprecated) + (opt_field_parts::<raw::Bool>(27u32, v.java_string_check_utf8) + (opt_field_parts::<raw::Bool>(31u32, v.cc_enable_arenas) + (opt_field_parts::<raw::String>(36u32, v.objc_class_prefix) + (opt_field_parts::<raw::String>(37u32, v.csharp_namespace) + (opt_field_parts::<raw::String>(39u32, v.swift_prefix) + (opt_field_parts::<raw::String>(40u32, v.php_class_prefix) + (opt_field_parts::<raw::String>(41u32, v.php_namespace) + (opt_field_parts::<raw::Bool>(42u32, v.php_generic_services) + (opt_field_parts::<raw::String>(44u32, v.php_metadata_namespace) + (opt_field_parts::<raw::String>(45u32, v.ruby_package) + (uninterpreted_option_seq_parts(999u32, v.uninterpreted_option) + (set_parts(v.unknown_fields))))))))))))))))))));
        proof {
            assert(self@.java_outer_classname == opt_inner_view::<raw::String>(self.java_outer_classname));
            assert(all == d1 + (p2 + rest2));
            assert(d1 + (p2 + rest2) =~= d1 + p2 + rest2);
            lemma_parts_written_append(start, cap, d1, p2);
            lemma_parts_written_append(start, cap, d1 + p2, rest2);
        }
        match write_opt_field::<raw::String>(output, FieldNumber::new_unchecked(8), &self.java_outer_classname) {
            Ok(()) => {},
            Err(e) => return Err(e),
        }
        let ghost d2 = d1 + p2;
        let ghost p3 = opt_field_parts::<raw::Enum<file_options::OptimizeMode>>(9u32, v.optimize_for);
        let ghost rest3 = opt_field_parts::<raw::Bool>(10u32, v.java_multiple_files) + (opt_field_parts::<raw::String>(11u32, v.go_package) + (opt_field_parts::<raw::Bool>(16u32, v.cc_generic_services) + (opt_field_parts::<raw::Bool>(17u32, v.java_generic_services) + (opt_field_parts::<raw::Bool>(18u32, v.py_generic_services) + (opt_field_parts::<raw::Bool>(20u32, v.java_generate_equals_and_hash) + (opt_field_parts::<raw::Bool>(23u32, v.deprecated) + (opt_field_parts::<raw::Bool>(27u32, v.java_string_check_utf8) + (opt_field_parts::<raw::Bool>(31u32, v.cc_enable_arenas) + (opt_field_parts::<raw::String>(36u32, v.objc_class_prefix) + (opt_field_parts::<raw::String>(37u32, v.csharp_namespace) + (opt_field_parts::<raw::String>(39u32, v.swift_prefix) + (opt_field_parts::<raw::String>(40u32, v.php_class_prefix) + (opt_field_parts::<raw::String>(41u32, v.php_namespace) + (opt_field_parts::<raw::Bool>(42u32, v.php_generic_services) + (opt_field_parts::<raw::String>(44u32, v.php_metadata_namespace) + (opt_field_parts::<raw::String>(45u32, v.ruby_package) + (uninterpreted_option_seq_parts(999u32, v.uninterpreted_option) + (set_parts(v.unknown_fields)))))))))))))))))));
        proof {
            assert(self@.optimize_for == opt_inner_view::<raw::Enum<file_options::OptimizeMode>>(self.optimize_for));
            assert(all == d2 + (p3 + rest3));
            assert(d2 + (p3 + rest3) =~= d2 + p3 + rest3);
            lemma_parts_written_append(start, cap, d2, p3);
            lemma_parts_written_append(start, cap, d2 + p3, rest3);
        }
        match write_opt_field::<raw::Enum<file_options::OptimizeMode>>(output, FieldNumber::new_unchecked(9), &self.optimize_for) {
            Ok(()) => {},
            Err(e) => return Err(e),
        }
        let ghost d3 = d2 + p3;
        let ghost p4 = opt_field_parts::<raw::Bool>(10u32, v.java_multiple_files);
        let ghost rest4 = opt_field_parts::<raw::String>(11u32, v.go_package) + (opt_field_parts::<raw::Bool>(16u32, v.cc_generic_services) + (opt_field_parts::<raw::Bool>(17u32, v.java_generic_services) + (opt_field_parts::<raw::Bool>(18u32, v.py_generic_services) + (opt_field_parts::<raw::Bool>(20u32, v.java_generate_equals_and_hash) + (opt_field_parts::<raw::Bool>(23u32, v.deprecated) + (opt_field_parts::<raw::Bool>(27u32, v.java_string_check_utf8) + (opt_field_parts::<raw::Bool>(31u32, v.cc_enable_arenas) + (opt_field_parts::<raw::String>(36u32, v.objc_class_prefix) + (opt_field_parts::<raw::String>(37u32, v.csharp_namespace) + (opt_field_parts::<raw::String>(39u32, v.swift_prefix) + (opt_field_parts::<raw::String>(40u32, v.php_class_prefix) + (opt_field_parts::<raw::String>(41u32, v.php_namespace) + (opt_field_parts::<raw::Bool>(42u32, v.php_generic_services) + (opt_field_parts::<raw::String>(44u32, v.php_metadata_namespace) + (opt_field_parts::<raw::String>(45u32, v.ruby_package) + (uninterpreted_option_seq_parts(999u32, v.uninterpreted_option) + (set_parts(v.unknown_fields))))))))))))))))));
        proof {
            assert(self@.java_multiple_files == opt_inner_view::<raw::Bool>(self.java_multiple_files));
            assert(all == d3 + (p4 + rest4));
            assert(d3 + (p4 + rest4) =~= d3 + p4 + rest4);
            lemma_parts_written_append(start, cap, d3, p4);
            lemma_parts_written_append(start, cap, d3 + p4, rest4);
        }
        match write_opt_field::<raw::Bool>(output, FieldNumber::new_unchecked(10), &self.java_multiple_files) {
            Ok(()) => {},
            Err(e) => return Err(e),
        }
        let ghost d4 = d3 + p4;
        let ghost p5 = opt_field_parts::<raw::String>(11u32, v.go_package);
        let ghost rest5 = opt_field_parts::<raw::Bool>(16u32, v.cc_generic_services) + (opt_field_parts::<raw::Bool>(17u32, v.java_generic_services) + (opt_field_parts::<raw::Bool>(18u32, v.py_generic_services) + (opt_field_parts::<raw::Bool>(20u32, v.java_generate_equals_and_hash) + (opt_field_parts::<raw::Bool>(23u32, v.deprecated) + (opt_field_parts::<raw::Bool>(27u32, v.java_string_check_utf8) + (opt_field_parts::<raw::Bool>(31u32, v.cc_enable_arenas) + (opt_field_parts::<raw::String>(36u32, v.objc_class_prefix) + (opt_field_parts::<raw::String>(37u32, v.csharp_namespace) + (opt_field_parts::<raw::String>(39u32, v.swift_prefix) + (opt_field_parts::<raw::String>(40u32, v.php_class_prefix) + (opt_field_parts::<raw::String>(41u32, v.php_namespace) + (opt_field_parts::<raw::Bool>(42u32, v.php_generic_services) + (opt_field_parts::<raw::String>(44u32, v.php_metadata_namespace) + (opt_field_parts::<raw::String>(45u32, v.ruby_package) + (uninterpreted_option_seq_parts(999u32, v.uninterpreted_option) + (set_parts(v.unknown_fields)))))))))))))))));
        proof {
            assert(self@.go_package == opt_inner_view::<raw::String>(self.go_package));
            assert(all == d4 + (p5 + rest5));
            assert(d4 + (p5 + rest5) =~= d4 + p5 + rest5);
            lemma_parts_written_append(start, cap, d4, p5);
            lemma_parts_written_append(start, cap, d4 + p5, rest5);
        }
        match write_opt_field::<raw::String>(output, FieldNumber::new_unchecked(11), &self.go_package) {
            Ok(()) => {},
            Err(e) => return Err(e),
        }
        let ghost d5 = d4 + p5;
        let ghost p6 = opt_field_parts::<raw::Bool>(16u32, v.cc_generic_services);
        let ghost rest6 = opt_field_parts::<raw::Bool>(17u32, v.java_generic_services) + (opt_field_parts::<raw::Bool>(18u32, v.py_generic_services) + (opt_field_parts::<raw::Bool>(20u32, v.java_generate_equals_and_hash) + (opt_field_parts::<raw::Bool>(23u32, v.deprecated) + (opt_field_parts::<raw::Bool>(27u32, v.java_string_check_utf8) + (opt_field_parts::<raw::Bool>(31u32, v.cc_enable_arenas) + (opt_field_parts::<raw::String>(36u32, v.objc_class_prefix) + (opt_field_parts::<raw::String>(37u32, v.csharp_namespace) + (opt_field_parts::<raw::String>(39u32, v.swift_prefix) + (opt_field_parts::<raw::String>(40u32, v.php_class_prefix) + (opt_field_parts::<raw::String>(41u32, v.php_namespace) + (opt_field_parts::<raw::Bool>(42u32, v.php_generic_services) + (opt_field_parts::<raw::String>(44u32, v.php_metadata_namespace) + (opt_field_parts::<raw::String>(45u32, v.ruby_package) + (uninterpreted_option_seq_parts(999u32, v.uninterpreted_option) + (set_parts(v.unknown_fields))))))))))))))));
        proof {
            assert(self@.cc_generic_services == opt_inner_view::<raw::Bool>(self.cc_generic_services));
            assert(all == d5 + (p6 + rest6));
            assert(d5 + (p6 + rest6) =~= d5 + p6 + rest6);
            lemma_parts_written_append(start, cap, d5, p6);
            lemma_parts_written_append(start, cap, d5 + p6, rest6);
        }
        match write_opt_field::<raw::Bool>(output, FieldNumber::new_unchecked(16), &self.cc_generic_services) {
            Ok(()) => {},
            Err(e) => return Err(e),
        }
        let ghost d6 = d5 + p6;
        let ghost p7 = opt_field_parts::<raw::Bool>(17u32, v.java_generic_services);
        let ghost rest7 = opt_field_parts::<raw::Bool>(18u32, v.py_generic_services) + (opt_field_parts::<raw::Bool>(20u32, v.java_generate_equals_and_hash) + (opt_field_parts::<raw::Bool>(23u32, v.deprecated) + (opt_field_parts::<raw::Bool>(27u32, v.java_string_check_utf8) + (opt_field_parts::<raw::Bool>(31u32, v.cc_enable_arenas) + (opt_field_parts::<raw::String>(36u32, v.objc_class_prefix) + (opt_field_parts::<raw::String>(37u32, v.csharp_namespace) + (opt_field_parts::<raw::String>(39u32, v.swift_prefix) + (opt_field_parts::<raw::String>(40u32, v.php_class_prefix) + (opt_field_parts::<raw::String>(41u32, v.php_namespace) + (opt_field_parts::<raw::Bool>(42u32, v.php_generic_services) + (opt_field_parts::<raw::String>(44u32, v.php_metadata_namespace) + (opt_field_parts::<raw::String>(45u32, v.ruby_package) + (uninterpreted_option_seq_parts(999u32, v.uninterpreted_option) + (set_parts(v.unknown_fields)))))))))))))));
        proof {
            assert(self@.java_generic_services == opt_inner_view::<raw::Bool>(self.java_generic_services));
            assert(all == d6 + (p7 + rest7));
            assert(d6 + (p7 + rest7) =~= d6 + p7 + rest7);
            lemma_parts_written_append(start, cap, d6, p7);
            lemma_parts_written_append(start, cap, d6 + p7, rest7);
        }
        match write_opt_field::<raw::Bool>(output, FieldNumber::new_unchecked(17), &self.java_generic_services) {
            Ok(()) => {},
            Err(e) => return Err(e),
        }
        let ghost d7 = d6 + p7;
        let ghost p8 = opt_field_parts::<raw::Bool>(18u32, v.py_generic_services);
        let ghost rest8 = opt_field_parts::<raw::Bool>(20u32, v.java_generate_equals_and_hash) + (opt_field_parts::<raw::Bool>(23u32, v.deprecated) + (opt_field_parts::<raw::Bool>(27u32, v.java_string_check_utf8) + (opt_field_parts::<raw::Bool>(31u32, v.cc_enable_arenas) + (opt_field_parts::<raw::String>(36u32, v.objc_class_prefix) + (opt_field_parts::<raw::String>(37u32, v.csharp_namespace) + (opt_field_parts::<raw::String>(39u32, v.swift_prefix) + (opt_field_parts::<raw::String>(40u32, v.php_class_prefix) + (opt_field_parts::<raw::String>(41u32, v.php_namespace) + (opt_field_parts::<raw::Bool>(42u32, v.php_generic_services) + (opt_field_parts::<raw::String>(44u32, v.php_metadata_namespace) + (opt_field_parts::<raw::String>(45u32, v.ruby_package) + (uninterpreted_option_seq_parts(999u32, v.uninterpreted_option) + (set_parts(v.unknown_fields))))))))))))));
        proof {
            assert(self@.py_generic_services == opt_inner_view::<raw::Bool>(self.py_generic_services));
            assert(all == d7 + (p8 + rest8));
            assert(d7 + (p8 + rest8) =~= d7 + p8 + rest8);
            lemma_parts_written_append(start, cap, d7, p8);
            lemma_parts_written_append(start, cap, d7 + p8, rest8);
        }
        match write_opt_field::<raw::Bool>(output, FieldNumber::new_unchecked(18), &self.py_generic_services) {
            Ok(()) => {},
            Err(e) => return Err(e),
        }
        let ghost d8 = d7 + p8;
        let ghost p9 = opt_field_parts::<raw::Bool>(20u32, v.java_generate_equals_and_hash);
        let ghost rest9 = opt_field_parts::<raw::Bool>(23u32, v.deprecated) + (opt_field_parts::<raw::Bool>(27u32, v.java_string_check_utf8) + (opt_field_parts::<raw::Bool>(31u32, v.cc_enable_arenas) + (opt_field_parts::<raw::String>(36u32, v.objc_class_prefix) + (opt_field_parts::<raw::String>(37u32, v.csharp_namespace) + (opt_field_parts::<raw::String>(39u32, v.swift_prefix) + (opt_field_parts::<raw::String>(40u32, v.php_class_prefix) + (opt_field_parts::<raw::String>(41u32, v.php_namespace) + (opt_field_parts::<raw::Bool>(42u32, v.php_generic_services) + (opt_field_parts::<raw::String>(44u32, v.php_metadata_namespace) + (opt_field_parts::<raw::String>(45u32, v.ruby_package) + (uninterpreted_option_seq_parts(999u32, v.uninterpreted_option) + (set_parts(v.unknown_fields)))))))))))));
        proof {
            assert(self@.java_generate_equals_and_hash == opt_inner_view::<raw::Bool>(self.java_generate_equals_and_hash));
            assert(all == d8 + (p9 + rest9));
            assert(d8 + (p9 + rest9) =~= d8 + p9 + rest9);
            lemma_parts_written_append(start, cap, d8, p9);
            lemma_parts_written_append(start, cap, d8 + p9, rest9);
        }
        match write_opt_field::<raw::Bool>(output, FieldNumber::new_unchecked(20), &self.java_generate_equals_and_hash) {
            Ok(()) => {},
            Err(e) => return Err(e),
        }
        let ghost d9 = d8 + p9;
        let ghost p10 = opt_field_parts::<raw::Bool>(23u32, v.deprecated);
        let ghost rest10 = opt_field_parts::<raw::Bool>(27u32, v.java_string_check_utf8) + (opt_field_parts::<raw::Bool>(31u32, v.cc_enable_arenas) + (opt_field_parts::<raw::String>(36u32, v.objc_class_prefix) + (opt_field_parts::<raw::String>(37u32, v.csharp_namespace) + (opt_field_parts::<raw::String>(39u32, v.swift_prefix) + (opt_field_parts::<raw::String>(40u32, v.php_class_prefix) + (opt_field_parts::<raw::String>(41u32, v.php_namespace) + (opt_field_parts::<raw::Bool>(42u32, v.php_generic_services) + (opt_field_parts::<raw::String>(44u32, v.php_metadata_namespace) + (opt_field_parts::<raw::String>(45u32, v.ruby_package) + (uninterpreted_option_seq_parts(999u32, v.uninterpreted_option) + (set_parts(v.unknown_fields))))))))))));
        proof {
            assert(self@.deprecated == opt_inner_view::<raw::Bool>(self.deprecated));
            assert(all == d9 + (p10 + rest10));
            assert(d9 + (p10 + rest10) =~= d9 + p10 + rest10);
            lemma_parts_written_append(start, cap, d9, p10);
            lemma_parts_written_append(start, cap, d9 + p10, rest10);
        }
        match write_opt_field::<raw::Bool>(output, FieldNumber::new_unchecked(23), &self.deprecated) {
            Ok(()) => {},
            Err(e) => return Err(e),
        }
        let ghost d10 = d9 + p10;
        let ghost p11 = opt_field_parts::<raw::Bool>(27u32, v.java_string_check_utf8);
        let ghost rest11 = opt_field_parts::<raw::Bool>(31u32, v.cc_enable_arenas) + (opt_field_parts::<raw::String>(36u32, v.objc_class_prefix) + (opt_field_parts::<raw::String>(37u32, v.csharp_namespace) + (opt_field_parts::<raw::String>(39u32, v.swift_prefix) + (opt_field_parts::<raw::String>(40u32, v.php_class_prefix) + (opt_field_parts::<raw::String>(41u32, v.php_namespace) + (opt_field_parts::<raw::Bool>(42u32, v.php_generic_services) + (opt_field_parts::<raw::String>(44u32, v.php_metadata_namespace) + (opt_field_parts::<raw::String>(45u32, v.ruby_package) + (uninterpreted_option_seq_parts(999u32, v.uninterpreted_option) + (set_parts(v.unknown_fields)))))))))));
        proof {
            assert(self@.java_string_check_utf8 == opt_inner_view::<raw::Bool>(self.java_string_check_utf8));
            assert(all == d10 + (p11 + rest11));
            assert(d10 + (p11 + rest11) =~= d10 + p11 + rest11);
            lemma_parts_written_append(start, cap, d10, p11);
            lemma_parts_written_append(start, cap, d10 + p11, rest11);
        }
        match write_opt_field::<raw::Bool>(output, FieldNumber::new_unchecked(27), &self.java_string_check_utf8) {
            Ok(()) => {},
            Err(e) => return Err(e),
        }
        let ghost d11 = d10 + p11;
        let ghost p12 = opt_field_parts::<raw::Bool>(31u32, v.cc_enable_arenas);
        let ghost rest12 = opt_field_parts::<raw::String>(36u32, v.objc_class_prefix) + (opt_field_parts::<raw::String>(37u32, v.csharp_namespace) + (opt_field_parts::<raw::String>(39u32, v.swift_prefix) + (opt_field_parts::<raw::String>(40u32, v.php_class_prefix) + (opt_field_parts::<raw::String>(41u32, v.php_namespace) + (opt_field_parts::<raw::Bool>(42u32, v.php_generic_services) + (opt_field_parts::<raw::String>(44u32, v.php_metadata_namespace) + (opt_field_parts::<raw::String>(45u32, v.ruby_package) + (uninterpreted_option_seq_parts(999u32, v.uninterpreted_option) + (set_parts(v.unknown_fields))))))))));
        proof {
            assert(self@.cc_enable_arenas == opt_inner_view::<raw::Bool>(self.cc_enable_arenas));
            assert(all == d11 + (p12 + rest12));
            assert(d11 + (p12 + rest12) =~= d11 + p12 + rest12);
            lemma_parts_written_append(start, cap, d11, p12);
            lemma_parts_written_append(start, cap, d11 + p12, rest12);
        }
        match write_opt_field::<raw::Bool>(output, FieldNumber::new_unchecked(31), &self.cc_enable_arenas) {
            Ok(()) => {},
            Err(e) => return Err(e),
        }
        let ghost d12 = d11 + p12;
        let ghost p13 = opt_field_parts::<raw::String>(36u32, v.objc_class_prefix);
        let ghost rest13 = opt_field_parts::<raw::String>(37u32, v.csharp_namespace) + (opt_field_parts::<raw::String>(39u32, v.swift_prefix) + (opt_field_parts::<raw::String>(40u32, v.php_class_prefix) + (opt_field_parts::<raw::String>(41u32, v.php_namespace) + (opt_field_parts::<raw::Bool>(42u32, v.php_generic_services) + (opt_field_parts::<raw::String>(44u32, v.php_metadata_namespace) + (opt_field_parts::<raw::String>(45u32, v.ruby_package) + (uninterpreted_option_seq_parts(999u32, v.uninterpreted_option) + (set_parts(v.unknown_fields)))))))));
        proof {
            assert(self@.objc_class_prefix == opt_inner_view::<raw::String>(self.objc_class_prefix));
            assert(all == d12 + (p13 + rest13));
            assert(d12 + (p13 + rest13) =~= d12 + p13 + rest13);
            lemma_parts_written_append(start, cap, d12, p13);
            lemma_parts_written_append(start, cap, d12 + p13, rest13);
        }
        match write_opt_field::<raw::String>(output, FieldNumber::new_unchecked(36), &self.objc_class_prefix) {
            Ok(()) => {},
            Err(e) => return Err(e),
        }
        let ghost d13 = d12 + p13;
        let ghost p14 = opt_field_parts::<raw::String>(37u32, v.csharp_namespace);
        let ghost rest14 = opt_field_parts::<raw::String>(39u32, v.swift_prefix) + (opt_field_parts::<raw::String>(40u32, v.php_class_prefix) + (opt_field_parts::<raw::String>(41u32, v.php_namespace) + (opt_field_parts::<raw::Bool>(42u32, v.php_generic_services) + (opt_field_parts::<raw::String>(44u32, v.php_metadata_namespace) + (opt_field_parts::<raw::String>(45u32, v.ruby_package) + (uninterpreted_option_seq_parts(999u32, v.uninterpreted_option) + (set_parts(v.unknown_fields))))))));
        proof {
            assert(self@.csharp_namespace == opt_inner_view::<raw::String>(self.csharp_namespace));
            assert(all == d13 + (p14 + rest14));
            assert(d13 + (p14 + rest14) =~= d13 + p14 + rest14);
            lemma_parts_written_append(start, cap, d13, p14);
            lemma_parts_written_append(start, cap, d13 + p14, rest14);
        }
        match write_opt_field::<raw::String>(output, FieldNumber::new_unchecked(37), &self.csharp_namespace) {
            Ok(()) => {},
            Err(e) => return Err(e),
        }
        let ghost d14 = d13 + p14;
        let ghost p15 = opt_field_parts::<raw::String>(39u32, v.swift_prefix);
        let ghost rest15 = opt_field_parts::<raw::String>(40u32, v.php_class_prefix) + (opt_field_parts::<raw::String>(41u32, v.php_namespace) + (opt_field_parts::<raw::Bool>(42u32, v.php_generic_services) + (opt_field_parts::<raw::String>(44u32, v.php_metadata_namespace) + (opt_field_parts::<raw::String>(45u32, v.ruby_package) + (uninterpreted_option_seq_parts(999u32, v.uninterpreted_option) + (set_parts(v.unknown_fields)))))));
        proof {
            assert(self@.swift_prefix == opt_inner_view::<raw::String>(self.swift_prefix));
            assert(all == d14 + (p15 + rest15));
            assert(d14 + (p15 + rest15) =~= d14 + p15 + rest15);
            lemma_parts_written_append(start, cap, d14, p15);
            lemma_parts_written_append(start, cap, d14 + p15, rest15);
        }
        match write_opt_field::<raw::String>(output, FieldNumber::new_unchecked(39), &self.swift_prefix) {
            Ok(()) => {},
            Err(e) => return Err(e),
        }
        let ghost d15 = d14 + p15;
        let ghost p16 = opt_field_parts::<raw::String>(40u32, v.php_class_prefix);
        let ghost rest16 = opt_field_parts::<raw::String>(41u32, v.php_namespace) + (opt_field_parts::<raw::Bool>(42u32, v.php_generic_services) + (opt_field_parts::<raw::String>(44u32, v.php_metadata_namespace) + (opt_field_parts::<raw::String>(45u32, v.ruby_package) + (uninterpreted_option_seq_parts(999u32, v.uninterpreted_option) + (set_parts(v.unknown_fields))))));
        proof {
            assert(self@.php_class_prefix == opt_inner_view::<raw::String>(self.php_class_prefix));
            assert(all == d15 + (p16 + rest16));
            assert(d15 + (p16 + rest16) =~= d15 + p16 + rest16);
            lemma_parts_written_append(start, cap, d15, p16);
            lemma_parts_written_append(start, cap, d15 + p16, rest16);
        }
        match write_opt_field::<raw::String>(output, FieldNumber::new_unchecked(40), &self.php_class_prefix) {
            Ok(()) => {},
            Err(e) => return Err(e),
        }
        let ghost d16 = d15 + p16;
        let ghost p17 = opt_field_parts::<raw::String>(41u32, v.php_namespace);
        let ghost rest17 = opt_field_parts::<raw::Bool>(42u32, v.php_generic_services) + (opt_field_parts::<raw::String>(44u32, v.php_metadata_namespace) + (opt_field_parts::<raw::String>(45u32, v.ruby_package) + (uninterpreted_option_seq_parts(999u32, v.uninterpreted_option) + (set_parts(v.unknown_fields)))));
        proof {
            assert(self@.php_namespace == opt_inner_view::<raw::String>(self.php_namespace));
            assert(all == d16 + (p17 + rest17));
            assert(d16 + (p17 + rest17) =~= d16 + p17 + rest17);
            lemma_parts_written_append(start, cap, d16, p17);
            lemma_parts_written_append(start, cap, d16 + p17, rest17);
        }
        match write_opt_field::<raw::String>(output, FieldNumber::new_unchecked(41), &self.php_namespace) {
            Ok(()) => {},
            Err(e) => return Err(e),
        }
        let ghost d17 = d16 + p17;
        let ghost p18 = opt_field_parts::<raw::Bool>(42u32, v.php_generic_services);
        let ghost rest18 = opt_field_parts::<raw::String>(44u32, v.php_metadata_namespace) + (opt_field_parts::<raw::String>(45u32, v.ruby_package) + (uninterpreted_option_seq_parts(999u32, v.uninterpreted_option) + (set_parts(v.unknown_fields))));
        proof {
            assert(self@.php_generic_services == opt_inner_view::<raw::Bool>(self.php_generic_services));
            assert(all == d17 + (p18 + rest18));
            assert(d17 + (p18 + rest18) =~= d17 + p18 + rest18);
            lemma_parts_written_append(start, cap, d17, p18);
            lemma_parts_written_append(start, cap, d17 + p18, rest18);
        }
        match write_opt_field::<raw::Bool>(output, FieldNumber::new_unchecked(42), &self.php_generic_services) {
            Ok(()) => {},
            Err(e) => return Err(e),
        }
        let ghost d18 = d17 + p18;
        let ghost p19 = opt_field_parts::<raw::String>(44u32, v.php_metadata_namespace);
        let ghost rest19 = opt_field_parts::<raw::String>(45u32, v.ruby_package) + (uninterpreted_option_seq_parts(999u32, v.uninterpreted_option) + (set_parts(v.unknown_fields)));
        proof {
            assert(self@.php_metadata_namespace == opt_inner_view::<raw::String>(self.php_metadata_namespace));
            assert(all == d18 + (p19 + rest19));
            assert(d18 + (p19 + rest19) =~= d18 + p19 + rest19);
            lemma_parts_written_append(start, cap, d18, p19);
            lemma_parts_written_append(start, cap, d18 + p19, rest19);
        }
        match write_opt_field::<raw::String>(output, FieldNumber::new_unchecked(44), &self.php_metadata_namespace) {
            Ok(()) => {},
            Err(e) => return Err(e),
        }
        let ghost d19 = d18 + p19;
        let ghost p20 = opt_field_parts::<raw::String>(45u32, v.ruby_package);
        let ghost rest20 = uninterpreted_option_seq_parts(999u32, v.uninterpreted_option) + (set_parts(v.unknown_fields));
        proof {
            assert(self@.ruby_package == opt_inner_view::<raw::String>(self.ruby_package));
            assert(all == d19 + (p20 + rest20));
            assert(d19 + (p20 + rest20) =~= d19 + p20 + rest20);
            lemma_parts_written_append(start, cap, d19, p20);
            lemma_parts_written_append(start, cap, d19 + p20, rest20);
        }
        match write_opt_field::<raw::String>(output, FieldNumber::new_unchecked(45), &self.ruby_package) {
            Ok(()) => {},
            Err(e) => return Err(e),
        }
        let ghost d20 = d19 + p20;
        let ghost p21 = uninterpreted_option_seq_parts(999u32, v.uninterpreted_option);
        let ghost rest21 = set_parts(v.unknown_fields);
        proof {
            assert(all == d20 + (p21 + rest21));
            assert(d20 + (p21 + rest21) =~= d20 + p21 + rest21);
            lemma_parts_written_append(start, cap, d20, p21);
            lemma_parts_written_append(start, cap, d20 + p21, rest21);
        }
        match write_uninterpreted_option_values(&self.uninterpreted_option, output, FieldNumber::new_unchecked(999)) {
            Ok(()) => {},
            Err(e) => return Err(e),
        }
        let ghost d21 = d20 + p21;
        let ghost p22 = set_parts(v.unknown_fields);
        let ghost rest22 = Seq::<(bool, Seq<u8>)>::empty();
        proof {
            assert(all == d21 + p22);
            assert(p22 + rest22 =~= p22);
            assert(d21 + (p22 + rest22) =~= d21 + p22 + rest22);
            lemma_parts_written_append(start, cap, d21, p22);
            lemma_parts_written_append(start, cap, d21 + p22, rest22);
        }
        match self.unknown_fields.write_to(output) {
            Ok(()) => {},
            Err(e) => return Err(e),
        }
        let ghost d22 = d21 + p22;
        proof {
            assert(all =~= d22 + Seq::<(bool, Seq<u8>)>::empty());
            assert(all == d22);
            lemma_ok_unit(parts_written(start, cap, all).1);
        }
        Ok(())
    }

    /// Reads the value of the field whose tag value `t` was just read into the message.
    #[verifier::spinoff_prover]
    fn merge_field(&mut self, t: u32, input: &mut CodedReader) -> (r: ReadResult<()>)
        ensures
            match file_options_field_read(old(self)@, t, old(input).available(), old(input).depth(), old(input).recursion_limit(), skips(*old(input)), old(input).end_group_view()) {
                Ok((m, v2)) => r is Ok && final(self)@ == v2 && m >= 0 && final(input).position()
                    == old(input).position() + m && same_state(*old(input), *final(input)),
                Err(e) => r == Err::<(), ReadError>(e) && same_config(*old(input), *final(input)),
            },
    {
        let rem0 = input.remaining();
        let ghost rest = input.available();
        if t == 10u32 {
            proof {
                <raw::String as Value>::lemma_decoding_len(rest);
            }
            input.set_last_tag(Some(Tag::new(FieldNumber::new_unchecked(1), WireType::LengthDelimited)));
            match <raw::String as Value>::merge_from(self.java_package.get_or_insert(std::string::String::new()), input) {
                Ok(()) => {},
                Err(e) => return Err(e),
            }
        } else if t == 66u32 {
            proof {
                <raw::String as Value>::lemma_decoding_len(rest);
            }
            input.set_last_tag(Some(Tag::new(FieldNumber::new_unchecked(8), WireType::LengthDelimited)));
            match <raw::String as Value>::merge_from(self.java_outer_classname.get_or_insert(std::string::String::new()), input) {
                Ok(()) => {},
                Err(e) => return Err(e),
            }
        } else if t == 72u32 {
            proof {
                <raw::Enum<file_options::OptimizeMode> as Value>::lemma_decoding_len(rest);
            }
            input.set_last_tag(Some(Tag::new(FieldNumber::new_unchecked(9), WireType::Varint)));
            match <raw::Enum<file_options::OptimizeMode> as Value>::merge_from(self.optimize_for.get_or_insert(OptimizeMode(0)), input) {
                Ok(()) => {},
                Err(e) => return Err(e),
            }
        } else if t == 80u32 {
            proof {
                <raw::Bool as Value>::lemma_decoding_len(rest);
            }
            input.set_last_tag(Some(Tag::new(FieldNumber::new_unchecked(10), WireType::Varint)));
            match <raw::Bool as Value>::merge_from(self.java_multiple_files.get_or_insert(false), input) {
                Ok(()) => {},
                Err(e) => return Err(e),
            }
        } else if t == 90u32 {
            proof {
                <raw::String as Value>::lemma_decoding_len(rest);
            }
            input.set_last_tag(Some(Tag::new(FieldNumber::new_unchecked(11), WireType::LengthDelimited)));
            match <raw::String as Value>::merge_from(self.go_package.get_or_insert(std::string::String::new()), input) {
                Ok(()) => {},
                Err(e) => return Err(e),
            }
        } else if t == 128u32 {
            proof {
                <raw::Bool as Value>::lemma_decoding_len(rest);
            }
            input.set_last_tag(Some(Tag::new(FieldNumber::new_unchecked(16), WireType::Varint)));
            match <raw::Bool as Value>::merge_from(self.cc_generic_services.get_or_insert(false), input) {
                Ok(()) => {},
                Err(e) => return Err(e),
            }
        } else if t == 136u32 {
            proof {
                <raw::Bool as Value>::lemma_decoding_len(rest);
            }
            input.set_last_tag(Some(Tag::new(FieldNumber::new_unchecked(17), WireType::Varint)));
            match <raw::Bool as Value>::merge_from(self.java_generic_services.get_or_insert(false), input) {
                Ok(()) => {},
                Err(e) => return Err(e),
            }
        } else if t == 144u32 {
            proof {
                <raw::Bool as Value>::lemma_decoding_len(rest);
            }
            input.set_last_tag(Some(Tag::new(FieldNumber::new_unchecked(18), WireType::Varint)));
            match <raw::Bool as Value>::merge_from(self.py_generic_services.get_or_insert(false), input) {
                Ok(()) => {},
                Err(e) => return Err(e),
            }
        } else if t == 160u32 {
            proof {
                <raw::Bool as Value>::lemma_decoding_len(rest);
            }
            input.set_last_tag(Some(Tag::new(FieldNumber::new_unchecked(20), WireType::Varint)));
            match <raw::Bool as Value>::merge_from(self.java_generate_equals_and_hash.get_or_insert(false), input) {
                Ok(()) => {},
                Err(e) => return Err(e),
            }
        } else if t == 184u32 {
            proof {
                <raw::Bool as Value>::lemma_decoding_len(rest);
            }
            input.set_last_tag(Some(Tag::new(FieldNumber::new_unchecked(23), WireType::Varint)));
            match <raw::Bool as Value>::merge_from(self.deprecated.get_or_insert(false), input) {
                Ok(()) => {},
                Err(e) => return Err(e),
            }
        } else if t == 216u32 {
            proof {
                <raw::Bool as Value>::lemma_decoding_len(rest);
            }
            input.set_last_tag(Some(Tag::new(FieldNumber::new_unchecked(27), WireType::Varint)));
            match <raw::Bool as Value>::merge_from(self.java_string_check_utf8.get_or_insert(false), input) {
                Ok(()) => {},
                Err(e) => return Err(e),
            }
        } else if t == 248u32 {
            proof {
                <raw::Bool as Value>::lemma_decoding_len(rest);
            }
            input.set_last_tag(Some(Tag::new(FieldNumber::new_unchecked(31), WireType::Varint)));
            match <raw::Bool as Value>::merge_from(self.cc_enable_arenas.get_or_insert(false), input) {
                Ok(()) => {},
                Err(e) => return Err(e),
            }
        } else if t == 290u32 {
            proof {
                <raw::String as Value>::lemma_decoding_len(rest);
            }
            input.set_last_tag(Some(Tag::new(FieldNumber::new_unchecked(36), WireType::LengthDelimited)));
            match <raw::String as Value>::merge_from(self.objc_class_prefix.get_or_insert(std::string::String::new()), input) {
                Ok(()) => {},
                Err(e) => return Err(e),
            }
        } else if t == 298u32 {
            proof {
                <raw::String as Value>::lemma_decoding_len(rest);
            }
            input.set_last_tag(Some(Tag::new(FieldNumber::new_unchecked(37), WireType::LengthDelimited)));
            match <raw::String as Value>::merge_from(self.csharp_namespace.get_or_insert(std::string::String::new()), input) {
                Ok(()) => {},
                Err(e) => return Err(e),
            }
        } else if t == 314u32 {
            proof {
                <raw::String as Value>::lemma_decoding_len(rest);
            }
            input.set_last_tag(Some(Tag::new(FieldNumber::new_unchecked(39), WireType::LengthDelimited)));
            match <raw::String as Value>::merge_from(self.swift_prefix.get_or_insert(std::string::String::new()), input) {
                Ok(()) => {},
                Err(e) => return Err(e),
            }
        } else if t == 322u32 {
            proof {
                <raw::String as Value>::lemma_decoding_len(rest);
            }
            input.set_last_tag(Some(Tag::new(FieldNumber::new_unchecked(40), WireType::LengthDelimited)));
            match <raw::String as Value>::merge_from(self.php_class_prefix.get_or_insert(std::string::String::new()), input) {
                Ok(()) => {},
                Err(e) => return Err(e),
            }
        } else if t == 330u32 {
            proof {
                <raw::String as Value>::lemma_decoding_len(rest);
            }
            input.set_last_tag(Some(Tag::new(FieldNumber::new_unchecked(41), WireType::LengthDelimited)));
            match <raw::String as Value>::merge_from(self.php_namespace.get_or_insert(std::string::String::new()), input) {
                Ok(()) => {},
                Err(e) => return Err(e),
            }
        } else if t == 336u32 {
            proof {
                <raw::Bool as Value>::lemma_decoding_len(rest);
            }
            input.set_last_tag(Some(Tag::new(FieldNumber::new_unchecked(42), WireType::Varint)));
            match <raw::Bool as Value>::merge_from(self.php_generic_services.get_or_insert(false), input) {
                Ok(()) => {},
                Err(e) => return Err(e),
            }
        } else if t == 354u32 {
            proof {
                <raw::String as Value>::lemma_decoding_len(rest);
            }
            input.set_last_tag(Some(Tag::new(FieldNumber::new_unchecked(44), WireType::LengthDelimited)));
            match <raw::String as Value>::merge_from(self.php_metadata_namespace.get_or_insert(std::string::String::new()), input) {
                Ok(()) => {},
                Err(e) => return Err(e),
            }
        } else if t == 362u32 {
            proof {
                <raw::String as Value>::lemma_decoding_len(rest);
            }
            input.set_last_tag(Some(Tag::new(FieldNumber::new_unchecked(45), WireType::LengthDelimited)));
            match <raw::String as Value>::merge_from(self.ruby_package.get_or_insert(std::string::String::new()), input) {
                Ok(()) => {},
                Err(e) => return Err(e),
            }
        } else if t == 7994u32 {
            proof {
                lemma_length_delimited_read_len(rest);
            }
            input.set_last_tag(Some(Tag::new(FieldNumber::new_unchecked(999), WireType::LengthDelimited)));
            let mut y = UninterpretedOption::default();
            match merge_uninterpreted_option_delimited(&mut y, input) {
                Ok(()) => {},
                Err(e) => return Err(e),
            }
            let ghost old_values = self.uninterpreted_option@;
            self.uninterpreted_option.push(y);
            proof {
                assert(self.uninterpreted_option@.subrange(0, self.uninterpreted_option@.len() - 1) =~= old_values);
            }
        } else {
            let tag = match Tag::try_from(t) {
                Ok(tag) => tag,
                Err(_) => return Err(ReadError::InvalidTag(t)),
            };
            input.set_last_tag(Some(tag));
            match self.unknown_fields.try_add_field_from(input) {
                Ok(TryRead::Consumed) => {},
                Ok(TryRead::Yielded) => match input.skip() {
                    Ok(()) => {},
                    Err(e) => return Err(e),
                },
                Err(e) => return Err(e),
            }
        }
        let rem1 = input.remaining();
        Ok(())
    }

    /// Merges the message with fields read from the reader, up to its limit. Scalar fields
    /// read replace those set, message fields are merged, repeated fields are added to,
    /// and unknown fields are stored or skipped as the reader says. On an error the message
    /// may hold some of the fields read before it.
    #[verifier::spinoff_prover]
    #[verifier::rlimit(50)]
    pub fn merge_from(&mut self, input: &mut CodedReader) -> (r: ReadResult<()>)
        ensures
            merge_outcome(file_options_merged(old(self)@, old(input).available(), old(input).depth(), old(input).recursion_limit(), skips(*old(input)), old(input).end_group_view()), final(self)@, *old(input), *final(input), r),
    {
        let rem0 = input.remaining();
        let ghost start = *input;
        let ghost total = file_options_merged(self@, input.available(), input.depth(), input.recursion_limit(), skips(*input), input.end_group_view());
        loop
            invariant
                start == *old(input),
                same_state(start, *input),
                0 <= start.position() <= input.position(),
                input.limit_end() <= input.input().len(),
                total == file_options_merged(old(self)@, start.available(), start.depth(), start.recursion_limit(), skips(start), start.end_group_view()),
                total == file_options_merged(self@, input.available(), start.depth(), start.recursion_limit(), skips(start), start.end_group_view()),
            decreases input.available().len(),
        {
            let ghost s = input.available();
            let ghost before = *input;
            let ghost v = self@;
            let t = match input.read_field() {
                Ok(Some(t)) => t,
                Ok(None) => return Ok(()),
                Err(e) => return Err(e),
            };
            let rem1 = input.remaining();
            let ghost n = input.position() - before.position();
            proof {
                lemma_varint_read_len(s);
                assert(input.available() =~= s.skip(n));
            }
            let ghost mid = *input;
            match self.merge_field(t, input) {
                Ok(()) => {},
                Err(e) => return Err(e),
            }
            let rem2 = input.remaining();
            proof {
                let m = input.position() - mid.position();
                assert(input.available() =~= s.skip(n + m));
            }
        }
    }
}

impl crate::Message for FileOptions {
    open spec fn merged(v: FileOptionsView, s: Seq<u8>, depth: nat, limit: nat, skip: bool, eg: Option<Tag>) -> ReadResult<FileOptionsView> {
        file_options_merged(v, s, depth, limit, skip, eg)
    }

    open spec fn parts(v: FileOptionsView) -> Seq<(bool, Seq<u8>)> {
        file_options_parts(v)
    }

    open spec fn initialized(v: FileOptionsView) -> bool {
        true
    }

    open spec fn unknown_fields_of(v: FileOptionsView) -> Seq<(u32, Seq<FieldValue>)> {
        v.unknown_fields
    }

    open spec fn with_unknown_fields(v: FileOptionsView, u: Seq<(u32, Seq<FieldValue>)>) -> FileOptionsView {
        FileOptionsView { unknown_fields: u, ..v }
    }

    fn merge_from(&mut self, input: &mut CodedReader) -> (r: ReadResult<()>) {
        FileOptions::merge_from(self, input)
    }

    fn calculate_size(&self) -> (r: Option<Length>) {
        FileOptions::calculate_size(self)
    }

    fn write_to(&self, output: &mut CodedWriter) -> (r: WriteResult) {
        FileOptions::write_to(self, output)
    }

    fn is_initialized(&self) -> (r: bool) {
        FileOptions::is_initialized(self)
    }

    fn unknown_fields(&self) -> (r: &UnknownFieldSet) {
        FileOptions::unknown_fields(self)
    }

    fn unknown_fields_mut(&mut self) -> (r: &mut UnknownFieldSet) {
        FileOptions::unknown_fields_mut(self)
    }
}

impl DebugMessage for FileOptions {
    open spec fn spec_full_name() -> Seq<char> {
        "google.protobuf.FileOptions"@
    }

    open spec fn spec_name() -> Seq<char> {
        "FileOptions"@
    }

    fn full_name() -> (r: &'static str) {
        "google.protobuf.FileOptions"
    }

    fn name() -> (r: &'static str) {
        "FileOptions"
    }
}

/// Whether `t` is the tag of a field a `FileOptions` reads.
pub open spec fn file_options_known_tag(t: u32) -> bool {
    t == 10u32 || t == 66u32 || t == 72u32 || t == 80u32 || t == 90u32 || t == 128u32 || t == 136u32 || t == 144u32 || t == 160u32 || t == 184u32 || t == 216u32 || t == 248u32 || t == 290u32 || t == 298u32 || t == 314u32 || t == 322u32 || t == 330u32 || t == 336u32 || t == 354u32 || t == 362u32 || t == 7994u32
}

/// Whether a `FileOptions` is read back as it is written, at nesting depth `depth` of a reader with
/// recursion limit `limit`: its messages are read back as written one level deeper, within
/// the limit; and its unknown fields are read back as written, none with the tag of one of
/// its fields.
pub open spec fn file_options_roundtrips(v: FileOptionsView, depth: nat, limit: nat) -> bool
{
    &&& (v.uninterpreted_option.len() > 0 ==> depth < limit)
    &&& forall|i: int| 0 <= i < v.uninterpreted_option.len() ==> uninterpreted_option_roundtrips(#[trigger] v.uninterpreted_option[i], depth + 1, limit)
    &&& set_readable(v.unknown_fields)
    &&& forall|k: int| 0 <= k < set_pairs(v.unknown_fields).len() ==> !file_options_known_tag(tag_value(
        #[trigger] set_pairs(v.unknown_fields)[k].0,
        field_value_wire_type(set_pairs(v.unknown_fields)[k].1),
    ))
}

/// Reading a `FileOptions` field whose tag is read from the front of `s` and whose value is read after
/// it continues with the rest of `s`.
proof fn lemma_file_options_step(v: FileOptionsView, s: Seq<u8>, k: int, t: u32, m: int, v2: FileOptionsView, depth: nat, limit: nat)
    requires
        varint_read(s) == Ok::<(int, u64), ReadError>((k, t as u64)),
        1 <= k <= s.len(),
        file_options_field_read(v, t, s.skip(k), depth, limit, false, None) == Ok::<(int, FileOptionsView), ReadError>((m, v2)),
        0 <= m,
        k + m <= s.len(),
    ensures
        file_options_merged(v, s, depth, limit, false, None) == file_options_merged(v2, s.skip(k + m), depth, limit, false, None),
{
    assert((t as u64) as u32 == t);
}

/// Reading the entries of `UninterpretedOption` values written as field `uninterpreted_option` of a `FileOptions` adds the values.
#[verifier::spinoff_prover]
#[verifier::rlimit(60)]
proof fn lemma_file_options_read_uninterpreted_option(v: FileOptionsView, ys: Seq<UninterpretedOptionView>, rest: Seq<u8>, depth: nat, limit: nat)
    requires
        parts_encodable(uninterpreted_option_seq_parts(999u32, ys)),
        ys.len() > 0 ==> depth < limit,
        forall|i: int| 0 <= i < ys.len() ==> uninterpreted_option_roundtrips(#[trigger] ys[i], depth + 1, limit),
    ensures
        file_options_merged(v, parts_bytes(uninterpreted_option_seq_parts(999u32, ys)) + rest, depth, limit, false, None) == file_options_merged(
            FileOptionsView { uninterpreted_option: v.uninterpreted_option + ys, ..v },
            rest,
            depth, limit, false, None,
        ),
    decreases ys.len(),
{
    if ys.len() == 0 {
        assert(parts_bytes(uninterpreted_option_seq_parts(999u32, ys)) + rest =~= rest);
        assert(v.uninterpreted_option + ys =~= v.uninterpreted_option);
    } else {
        let y = ys[0];
        let tail = ys.drop_first();
        assert forall|i: int| 0 <= i < tail.len() implies uninterpreted_option_roundtrips(#[trigger] tail[i], depth + 1, limit) by {
            assert(tail[i] == ys[i + 1]);
        }
        lemma_uninterpreted_option_seq_parts_front(999u32, ys);
        let ep = entry_parts(999u32, uninterpreted_option_parts(y));
        lemma_parts_encodable_two(ep, uninterpreted_option_seq_parts(999u32, tail));
        lemma_parts_bytes_append(ep, uninterpreted_option_seq_parts(999u32, tail));
        assert(ep[1].0);
        let after = parts_bytes(uninterpreted_option_seq_parts(999u32, tail)) + rest;
        let s = parts_bytes(uninterpreted_option_seq_parts(999u32, ys)) + rest;
        assert(s =~= parts_bytes(ep) + after);
        lemma_entry_bytes_read(999u32, uninterpreted_option_parts(y), after);
        lemma_tag_value(999u32, WireType::LengthDelimited);
        lemma_uninterpreted_option_roundtrip(y, depth + 1, limit);
        let hl = parts_bytes(ep).len() as int;
        let k = varint_len(7994u64) as int;
        let v2 = FileOptionsView { uninterpreted_option: v.uninterpreted_option.push(y), ..v };
        lemma_file_options_step(v, s, k, 7994u32, hl - k, v2, depth, limit);
        lemma_file_options_read_uninterpreted_option(v2, tail, rest, depth, limit);
        assert(v.uninterpreted_option.push(y) + tail =~= v.uninterpreted_option + ys);
    }
}

/// Reading the field `java_package` of a `FileOptions` written from `o` sets it to `o`, whatever it held; nothing
/// is written, and nothing changes, for `None`.
proof fn lemma_file_options_read_java_package(d: FileOptionsView, o: Option<Seq<char>>, rest: Seq<u8>, depth: nat, limit: nat)
    requires
        parts_encodable(opt_field_parts::<raw::String>(1u32, o)),
    ensures
        file_options_merged(d, parts_bytes(opt_field_parts::<raw::String>(1u32, o)) + rest, depth, limit, false, None) == file_options_merged(if o is Some { FileOptionsView { java_package: o, ..d } } else { d }, rest, depth, limit, false, None),
{
    match o {
        None => {
            assert(parts_bytes(opt_field_parts::<raw::String>(1u32, o)) + rest =~= rest);
        },
        Some(x) => {
            let p = field_parts::<raw::String>(1u32, x);
            assert(p[1].0);
            let s = parts_bytes(p) + rest;
            lemma_field_bytes_read::<raw::String>(1u32, x, rest);
            lemma_tag_value(1u32, WireType::LengthDelimited);
            let hl = parts_bytes(p).len() as int;
            let k = varint_len(10u64) as int;
            let v2 = FileOptionsView { java_package: Some(x), ..d };
            lemma_file_options_step(d, s, k, 10u32, hl - k, v2, depth, limit);
        },
    }
}

/// Reading the field `java_outer_classname` of a `FileOptions` written from `o` sets it to `o`, whatever it held; nothing
/// is written, and nothing changes, for `None`.
proof fn lemma_file_options_read_java_outer_classname(d: FileOptionsView, o: Option<Seq<char>>, rest: Seq<u8>, depth: nat, limit: nat)
    requires
        parts_encodable(opt_field_parts::<raw::String>(8u32, o)),
    ensures
        file_options_merged(d, parts_bytes(opt_field_parts::<raw::String>(8u32, o)) + rest, depth, limit, false, None) == file_options_merged(if o is Some { FileOptionsView { java_outer_classname: o, ..d } } else { d }, rest, depth, limit, false, None),
{
    match o {
        None => {
            assert(parts_bytes(opt_field_parts::<raw::String>(8u32, o)) + rest =~= rest);
        },
        Some(x) => {
            let p = field_parts::<raw::String>(8u32, x);
            assert(p[1].0);
            let s = parts_bytes(p) + rest;
            lemma_field_bytes_read::<raw::String>(8u32, x, rest);
            lemma_tag_value(8u32, WireType::LengthDelimited);
            let hl = parts_bytes(p).len() as int;
            let k = varint_len(66u64) as int;
            let v2 = FileOptionsView { java_outer_classname: Some(x), ..d };
            lemma_file_options_step(d, s, k, 66u32, hl - k, v2, depth, limit);
        },
    }
}

/// Reading the field `java_multiple_files` of a `FileOptions` written from `o` sets it to `o`, whatever it held; nothing
/// is written, and nothing changes, for `None`.
proof fn lemma_file_options_read_java_multiple_files(d: FileOptionsView, o: Option<bool>, rest: Seq<u8>, depth: nat, limit: nat)
    requires
        parts_encodable(opt_field_parts::<raw::Bool>(10u32, o)),
    ensures
        file_options_merged(d, parts_bytes(opt_field_parts::<raw::Bool>(10u32, o)) + rest, depth, limit, false, None) == file_options_merged(if o is Some { FileOptionsView { java_multiple_files: o, ..d } } else { d }, rest, depth, limit, false, None),
{
    match o {
        None => {
            assert(parts_bytes(opt_field_parts::<raw::Bool>(10u32, o)) + rest =~= rest);
        },
        Some(x) => {
            let p = field_parts::<raw::Bool>(10u32, x);
            assert(p[1].0);
            let s = parts_bytes(p) + rest;
            lemma_field_bytes_read::<raw::Bool>(10u32, x, rest);
            lemma_tag_value(10u32, WireType::Varint);
            let hl = parts_bytes(p).len() as int;
            let k = varint_len(80u64) as int;
            let v2 = FileOptionsView { java_multiple_files: Some(x), ..d };
            lemma_file_options_step(d, s, k, 80u32, hl - k, v2, depth, limit);
        },
    }
}

/// Reading the field `java_generate_equals_and_hash` of a `FileOptions` written from `o` sets it to `o`, whatever it held; nothing
/// is written, and nothing changes, for `None`.
proof fn lemma_file_options_read_java_generate_equals_and_hash(d: FileOptionsView, o: Option<bool>, rest: Seq<u8>, depth: nat, limit: nat)
    requires
        parts_encodable(opt_field_parts::<raw::Bool>(20u32, o)),
    ensures
        file_options_merged(d, parts_bytes(opt_field_parts::<raw::Bool>(20u32, o)) + rest, depth, limit, false, None) == file_options_merged(if o is Some { FileOptionsView { java_generate_equals_and_hash: o, ..d } } else { d }, rest, depth, limit, false, None),
{
    match o {
        None => {
            assert(parts_bytes(opt_field_parts::<raw::Bool>(20u32, o)) + rest =~= rest);
        },
        Some(x) => {
            let p = field_parts::<raw::Bool>(20u32, x);
            assert(p[1].0);
            let s = parts_bytes(p) + rest;
            lemma_field_bytes_read::<raw::Bool>(20u32, x, rest);
            lemma_tag_value(20u32, WireType::Varint);
            let hl = parts_bytes(p).len() as int;
            let k = varint_len(160u64) as int;
            let v2 = FileOptionsView { java_generate_equals_and_hash: Some(x), ..d };
            lemma_file_options_step(d, s, k, 160u32, hl - k, v2, depth, limit);
        },
    }
}

/// Reading the field `java_string_check_utf8` of a `FileOptions` written from `o` sets it to `o`, whatever it held; nothing
/// is written, and nothing changes, for `None`.
proof fn lemma_file_options_read_java_string_check_utf8(d: FileOptionsView, o: Option<bool>, rest: Seq<u8>, depth: nat, limit: nat)
    requires
        parts_encodable(opt_field_parts::<raw::Bool>(27u32, o)),
    ensures
        file_options_merged(d, parts_bytes(opt_field_parts::<raw::Bool>(27u32, o)) + rest, depth, limit, false, None) == file_options_merged(if o is Some { FileOptionsView { java_string_check_utf8: o, ..d } } else { d }, rest, depth, limit, false, None),
{
    match o {
        None => {
            assert(parts_bytes(opt_field_parts::<raw::Bool>(27u32, o)) + rest =~= rest);
        },
        Some(x) => {
            let p = field_parts::<raw::Bool>(27u32, x);
            assert(p[1].0);
            let s = parts_bytes(p) + rest;
            lemma_field_bytes_read::<raw::Bool>(27u32, x, rest);
            lemma_tag_value(27u32, WireType::Varint);
            let hl = parts_bytes(p).len() as int;
            let k = varint_len(216u64) as int;
            let v2 = FileOptionsView { java_string_check_utf8: Some(x), ..d };
            lemma_file_options_step(d, s, k, 216u32, hl - k, v2, depth, limit);
        },
    }
}

/// Reading the field `optimize_for` of a `FileOptions` written from `o` sets it to `o`, whatever it held; nothing
/// is written, and nothing changes, for `None`.
proof fn lemma_file_options_read_optimize_for(d: FileOptionsView, o: Option<i32>, rest: Seq<u8>, depth: nat, limit: nat)
    requires
        parts_encodable(opt_field_parts::<raw::Enum<file_options::OptimizeMode>>(9u32, o)),
    ensures
        file_options_merged(d, parts_bytes(opt_field_parts::<raw::Enum<file_options::OptimizeMode>>(9u32, o)) + rest, depth, limit, false, None) == file_options_merged(if o is Some { FileOptionsView { optimize_for: o, ..d } } else { d }, rest, depth, limit, false, None),
{
    match o {
        None => {
            assert(parts_bytes(opt_field_parts::<raw::Enum<file_options::OptimizeMode>>(9u32, o)) + rest =~= rest);
        },
        Some(x) => {
            let p = field_parts::<raw::Enum<file_options::OptimizeMode>>(9u32, x);
            assert(p[1].0);
            let s = parts_bytes(p) + rest;
            lemma_field_bytes_read::<raw::Enum<file_options::OptimizeMode>>(9u32, x, rest);
            lemma_tag_value(9u32, WireType::Varint);
            let hl = parts_bytes(p).len() as int;
            let k = varint_len(72u64) as int;
            let v2 = FileOptionsView { optimize_for: Some(x), ..d };
            lemma_file_options_step(d, s, k, 72u32, hl - k, v2, depth, limit);
        },
    }
}

/// Reading the field `go_package` of a `FileOptions` written from `o` sets it to `o`, whatever it held; nothing
/// is written, and nothing changes, for `None`.
proof fn lemma_file_options_read_go_package(d: FileOptionsView, o: Option<Seq<char>>, rest: Seq<u8>, depth: nat, limit: nat)
    requires
        parts_encodable(opt_field_parts::<raw::String>(11u32, o)),
    ensures
        file_options_merged(d, parts_bytes(opt_field_parts::<raw::String>(11u32, o)) + rest, depth, limit, false, None) == file_options_merged(if o is Some { FileOptionsView { go_package: o, ..d } } else { d }, rest, depth, limit, false, None),
{
    match o {
        None => {
            assert(parts_bytes(opt_field_parts::<raw::String>(11u32, o)) + rest =~= rest);
        },
        Some(x) => {
            let p = field_parts::<raw::String>(11u32, x);
            assert(p[1].0);
            let s = parts_bytes(p) + rest;
            lemma_field_bytes_read::<raw::String>(11u32, x, rest);
            lemma_tag_value(11u32, WireType::LengthDelimited);
            let hl = parts_bytes(p).len() as int;
            let k = varint_len(90u64) as int;
            let v2 = FileOptionsView { go_package: Some(x), ..d };
            lemma_file_options_step(d, s, k, 90u32, hl - k, v2, depth, limit);
        },
    }
}

/// Reading the field `cc_generic_services` of a `FileOptions` written from `o` sets it to `o`, whatever it held; nothing
/// is written, and nothing changes, for `None`.
proof fn lemma_file_options_read_cc_generic_services(d: FileOptionsView, o: Option<bool>, rest: Seq<u8>, depth: nat, limit: nat)
    requires
        parts_encodable(opt_field_parts::<raw::Bool>(16u32, o)),
    ensures
        file_options_merged(d, parts_bytes(opt_field_parts::<raw::Bool>(16u32, o)) + rest, depth, limit, false, None) == file_options_merged(if o is Some { FileOptionsView { cc_generic_services: o, ..d } } else { d }, rest, depth, limit, false, None),
{
    match o {
        None => {
            assert(parts_bytes(opt_field_parts::<raw::Bool>(16u32, o)) + rest =~= rest);
        },
        Some(x) => {
            let p = field_parts::<raw::Bool>(16u32, x);
            assert(p[1].0);
            let s = parts_bytes(p) + rest;
            lemma_field_bytes_read::<raw::Bool>(16u32, x, rest);
            lemma_tag_value(16u32, WireType::Varint);
            let hl = parts_bytes(p).len() as int;
            let k = varint_len(128u64) as int;
            let v2 = FileOptionsView { cc_generic_services: Some(x), ..d };
            lemma_file_options_step(d, s, k, 128u32, hl - k, v2, depth, limit);
        },
    }
}

/// Reading the field `java_generic_services` of a `FileOptions` written from `o` sets it to `o`, whatever it held; nothing
/// is written, and nothing changes, for `None`.
proof fn lemma_file_options_read_java_generic_services(d: FileOptionsView, o: Option<bool>, rest: Seq<u8>, depth: nat, limit: nat)
    requires
        parts_encodable(opt_field_parts::<raw::Bool>(17u32, o)),
    ensures
        file_options_merged(d, parts_bytes(opt_field_parts::<raw::Bool>(17u32, o)) + rest, depth, limit, false, None) == file_options_merged(if o is Some { FileOptionsView { java_generic_services: o, ..d } } else { d }, rest, depth, limit, false, None),
{
    match o {
        None => {
            assert(parts_bytes(opt_field_parts::<raw::Bool>(17u32, o)) + rest =~= rest);
        },
        Some(x) => {
            let p = field_parts::<raw::Bool>(17u32, x);
            assert(p[1].0);
            let s = parts_bytes(p) + rest;
            lemma_field_bytes_read::<raw::Bool>(17u32, x, rest);
            lemma_tag_value(17u32, WireType::Varint);
            let hl = parts_bytes(p).len() as int;
            let k = varint_len(136u64) as int;
            let v2 = FileOptionsView { java_generic_services: Some(x), ..d };
            lemma_file_options_step(d, s, k, 136u32, hl - k, v2, depth, limit);
        },
    }
}

/// Reading the field `py_generic_services` of a `FileOptions` written from `o` sets it to `o`, whatever it held; nothing
/// is written, and nothing changes, for `None`.
proof fn lemma_file_options_read_py_generic_services(d: FileOptionsView, o: Option<bool>, rest: Seq<u8>, depth: nat, limit: nat)
    requires
        parts_encodable(opt_field_parts::<raw::Bool>(18u32, o)),
    ensures
        file_options_merged(d, parts_bytes(opt_field_parts::<raw::Bool>(18u32, o)) + rest, depth, limit, false, None) == file_options_merged(if o is Some { FileOptionsView { py_generic_services: o, ..d } } else { d }, rest, depth, limit, false, None),
{
    match o {
        None => {
            assert(parts_bytes(opt_field_parts::<raw::Bool>(18u32, o)) + rest =~= rest);
        },
        Some(x) => {
            let p = field_parts::<raw::Bool>(18u32, x);
            assert(p[1].0);
            let s = parts_bytes(p) + rest;
            lemma_field_bytes_read::<raw::Bool>(18u32, x, rest);
            lemma_tag_value(18u32, WireType::Varint);
            let hl = parts_bytes(p).len() as int;
            let k = varint_len(144u64) as int;
            let v2 = FileOptionsView { py_generic_services: Some(x), ..d };
            lemma_file_options_step(d, s, k, 144u32, hl - k, v2, depth, limit);
        },
    }
}

/// Reading the field `php_generic_services` of a `FileOptions` written from `o` sets it to `o`, whatever it held; nothing
/// is written, and nothing changes, for `None`.
proof fn lemma_file_options_read_php_generic_services(d: FileOptionsView, o: Option<bool>, rest: Seq<u8>, depth: nat, limit: nat)
    requires
        parts_encodable(opt_field_parts::<raw::Bool>(42u32, o)),
    ensures
        file_options_merged(d, parts_bytes(opt_field_parts::<raw::Bool>(42u32, o)) + rest, depth, limit, false, None) == file_options_merged(if o is Some { FileOptionsView { php_generic_services: o, ..d } } else { d }, rest, depth, limit, false, None),
{
    match o {
        None => {
            assert(parts_bytes(opt_field_parts::<raw::Bool>(42u32, o)) + rest =~= rest);
        },
        Some(x) => {
            let p = field_parts::<raw::Bool>(42u32, x);
            assert(p[1].0);
            let s = parts_bytes(p) + rest;
            lemma_field_bytes_read::<raw::Bool>(42u32, x, rest);
            lemma_tag_value(42u32, WireType::Varint);
            let hl = parts_bytes(p).len() as int;
            let k = varint_len(336u64) as int;
            let v2 = FileOptionsView { php_generic_services: Some(x), ..d };
            lemma_file_options_step(d, s, k, 336u32, hl - k, v2, depth, limit);
        },
    }
}

/// Reading the field `deprecated` of a `FileOptions` written from `o` sets it to `o`, whatever it held; nothing
/// is written, and nothing changes, for `None`.
proof fn lemma_file_options_read_deprecated(d: FileOptionsView, o: Option<bool>, rest: Seq<u8>, depth: nat, limit: nat)
    requires
        parts_encodable(opt_field_parts::<raw::Bool>(23u32, o)),
    ensures
        file_options_merged(d, parts_bytes(opt_field_parts::<raw::Bool>(23u32, o)) + rest, depth, limit, false, None) == file_options_merged(if o is Some { FileOptionsView { deprecated: o, ..d } } else { d }, rest, depth, limit, false, None),
{
    match o {
        None => {
            assert(parts_bytes(opt_field_parts::<raw::Bool>(23u32, o)) + rest =~= rest);
        },
        Some(x) => {
            let p = field_parts::<raw::Bool>(23u32, x);
            assert(p[1].0);
            let s = parts_bytes(p) + rest;
            lemma_field_bytes_read::<raw::Bool>(23u32, x, rest);
            lemma_tag_value(23u32, WireType::Varint);
            let hl = parts_bytes(p).len() as int;
            let k = varint_len(184u64) as int;
            let v2 = FileOptionsView { deprecated: Some(x), ..d };
            lemma_file_options_step(d, s, k, 184u32, hl - k, v2, depth, limit);
        },
    }
}

/// Reading the field `cc_enable_arenas` of a `FileOptions` written from `o` sets it to `o`, whatever it held; nothing
/// is written, and nothing changes, for `None`.
proof fn lemma_file_options_read_cc_enable_arenas(d: FileOptionsView, o: Option<bool>, rest: Seq<u8>, depth: nat, limit: nat)
    requires
        parts_encodable(opt_field_parts::<raw::Bool>(31u32, o)),
    ensures
        file_options_merged(d, parts_bytes(opt_field_parts::<raw::Bool>(31u32, o)) + rest, depth, limit, false, None) == file_options_merged(if o is Some { FileOptionsView { cc_enable_arenas: o, ..d } } else { d }, rest, depth, limit, false, None),
{
    match o {
        None => {
            assert(parts_bytes(opt_field_parts::<raw::Bool>(31u32, o)) + rest =~= rest);
        },
        Some(x) => {
            let p = field_parts::<raw::Bool>(31u32, x);
            assert(p[1].0);
            let s = parts_bytes(p) + rest;
            lemma_field_bytes_read::<raw::Bool>(31u32, x, rest);
            lemma_tag_value(31u32, WireType::Varint);
            let hl = parts_bytes(p).len() as int;
            let k = varint_len(248u64) as int;
            let v2 = FileOptionsView { cc_enable_arenas: Some(x), ..d };
            lemma_file_options_step(d, s, k, 248u32, hl - k, v2, depth, limit);
        },
    }
}

/// Reading the field `objc_class_prefix` of a `FileOptions` written from `o` sets it to `o`, whatever it held; nothing
/// is written, and nothing changes, for `None`.
proof fn lemma_file_options_read_objc_class_prefix(d: FileOptionsView, o: Option<Seq<char>>, rest: Seq<u8>, depth: nat, limit: nat)
    requires
        parts_encodable(opt_field_parts::<raw::String>(36u32, o)),
    ensures
        file_options_merged(d, parts_bytes(opt_field_parts::<raw::String>(36u32, o)) + rest, depth, limit, false, None) == file_options_merged(if o is Some { FileOptionsView { objc_class_prefix: o, ..d } } else { d }, rest, depth, limit, false, None),
{
    match o {
        None => {
            assert(parts_bytes(opt_field_parts::<raw::String>(36u32, o)) + rest =~= rest);
        },
        Some(x) => {
            let p = field_parts::<raw::String>(36u32, x);
            assert(p[1].0);
            let s = parts_bytes(p) + rest;
            lemma_field_bytes_read::<raw::String>(36u32, x, rest);
            lemma_tag_value(36u32, WireType::LengthDelimited);
            let hl = parts_bytes(p).len() as int;
            let k = varint_len(290u64) as int;
            let v2 = FileOptionsView { objc_class_prefix: Some(x), ..d };
            lemma_file_options_step(d, s, k, 290u32, hl - k, v2, depth, limit);
        },
    }
}

/// Reading the field `csharp_namespace` of a `FileOptions` written from `o` sets it to `o`, whatever it held; nothing
/// is written, and nothing changes, for `None`.
proof fn lemma_file_options_read_csharp_namespace(d: FileOptionsView, o: Option<Seq<char>>, rest: Seq<u8>, depth: nat, limit: nat)
    requires
        parts_encodable(opt_field_parts::<raw::String>(37u32, o)),
    ensures
        file_options_merged(d, parts_bytes(opt_field_parts::<raw::String>(37u32, o)) + rest, depth, limit, false, None) == file_options_merged(if o is Some { FileOptionsView { csharp_namespace: o, ..d } } else { d }, rest, depth, limit, false, None),
{
    match o {
        None => {
            assert(parts_bytes(opt_field_parts::<raw::String>(37u32, o)) + rest =~= rest);
        },
        Some(x) => {
            let p = field_parts::<raw::String>(37u32, x);
            assert(p[1].0);
            let s = parts_bytes(p) + rest;
            lemma_field_bytes_read::<raw::String>(37u32, x, rest);
            lemma_tag_value(37u32, WireType::LengthDelimited);
            let hl = parts_bytes(p).len() as int;
            let k = varint_len(298u64) as int;
            let v2 = FileOptionsView { csharp_namespace: Some(x), ..d };
            lemma_file_options_step(d, s, k, 298u32, hl - k, v2, depth, limit);
        },
    }
}

/// Reading the field `swift_prefix` of a `FileOptions` written from `o` sets it to `o`, whatever it held; nothing
/// is written, and nothing changes, for `None`.
proof fn lemma_file_options_read_swift_prefix(d: FileOptionsView, o: Option<Seq<char>>, rest: Seq<u8>, depth: nat, limit: nat)
    requires
        parts_encodable(opt_field_parts::<raw::String>(39u32, o)),
    ensures
        file_options_merged(d, parts_bytes(opt_field_parts::<raw::String>(39u32, o)) + rest, depth, limit, false, None) == file_options_merged(if o is Some { FileOptionsView { swift_prefix: o, ..d } } else { d }, rest, depth, limit, false, None),
{
    match o {
        None => {
            assert(parts_bytes(opt_field_parts::<raw::String>(39u32, o)) + rest =~= rest);
        },
        Some(x) => {
            let p = field_parts::<raw::String>(39u32, x);
            assert(p[1].0);
            let s = parts_bytes(p) + rest;
            lemma_field_bytes_read::<raw::String>(39u32, x, rest);
            lemma_tag_value(39u32, WireType::LengthDelimited);
            let hl = parts_bytes(p).len() as int;
            let k = varint_len(314u64) as int;
            let v2 = FileOptionsView { swift_prefix: Some(x), ..d };
            lemma_file_options_step(d, s, k, 314u32, hl - k, v2, depth, limit);
        },
    }
}

/// Reading the field `php_class_prefix` of a `FileOptions` written from `o` sets it to `o`, whatever it held; nothing
/// is written, and nothing changes, for `None`.
proof fn lemma_file_options_read_php_class_prefix(d: FileOptionsView, o: Option<Seq<char>>, rest: Seq<u8>, depth: nat, limit: nat)
    requires
        parts_encodable(opt_field_parts::<raw::String>(40u32, o)),
    ensures
        file_options_merged(d, parts_bytes(opt_field_parts::<raw::String>(40u32, o)) + rest, depth, limit, false, None) == file_options_merged(if o is Some { FileOptionsView { php_class_prefix: o, ..d } } else { d }, rest, depth, limit, false, None),
{
    match o {
        None => {
            assert(parts_bytes(opt_field_parts::<raw::String>(40u32, o)) + rest =~= rest);
        },
        Some(x) => {
            let p = field_parts::<raw::String>(40u32, x);
            assert(p[1].0);
            let s = parts_bytes(p) + rest;
            lemma_field_bytes_read::<raw::String>(40u32, x, rest);
            lemma_tag_value(40u32, WireType::LengthDelimited);
            let hl = parts_bytes(p).len() as int;
            let k = varint_len(322u64) as int;
            let v2 = FileOptionsView { php_class_prefix: Some(x), ..d };
            lemma_file_options_step(d, s, k, 322u32, hl - k, v2, depth, limit);
        },
    }
}

/// Reading the field `php_namespace` of a `FileOptions` written from `o` sets it to `o`, whatever it held; nothing
/// is written, and nothing changes, for `None`.
proof fn lemma_file_options_read_php_namespace(d: FileOptionsView, o: Option<Seq<char>>, rest: Seq<u8>, depth: nat, limit: nat)
    requires
        parts_encodable(opt_field_parts::<raw::String>(41u32, o)),
    ensures
        file_options_merged(d, parts_bytes(opt_field_parts::<raw::String>(41u32, o)) + rest, depth, limit, false, None) == file_options_merged(if o is Some { FileOptionsView { php_namespace: o, ..d } } else { d }, rest, depth, limit, false, None),
{
    match o {
        None => {
            assert(parts_bytes(opt_field_parts::<raw::String>(41u32, o)) + rest =~= rest);
        },
        Some(x) => {
            let p = field_parts::<raw::String>(41u32, x);
            assert(p[1].0);
            let s = parts_bytes(p) + rest;
            lemma_field_bytes_read::<raw::String>(41u32, x, rest);
            lemma_tag_value(41u32, WireType::LengthDelimited);
            let hl = parts_bytes(p).len() as int;
            let k = varint_len(330u64) as int;
            let v2 = FileOptionsView { php_namespace: Some(x), ..d };
            lemma_file_options_step(d, s, k, 330u32, hl - k, v2, depth, limit);
        },
    }
}

/// Reading the field `php_metadata_namespace` of a `FileOptions` written from `o` sets it to `o`, whatever it held; nothing
/// is written, and nothing changes, for `None`.
proof fn lemma_file_options_read_php_metadata_namespace(d: FileOptionsView, o: Option<Seq<char>>, rest: Seq<u8>, depth: nat, limit: nat)
    requires
        parts_encodable(opt_field_parts::<raw::String>(44u32, o)),
    ensures
        file_options_merged(d, parts_bytes(opt_field_parts::<raw::String>(44u32, o)) + rest, depth, limit, false, None) == file_options_merged(if o is Some { FileOptionsView { php_metadata_namespace: o, ..d } } else { d }, rest, depth, limit, false, None),
{
    match o {
        None => {
            assert(parts_bytes(opt_field_parts::<raw::String>(44u32, o)) + rest =~= rest);
        },
        Some(x) => {
            let p = field_parts::<raw::String>(44u32, x);
            assert(p[1].0);
            let s = parts_bytes(p) + rest;
            lemma_field_bytes_read::<raw::String>(44u32, x, rest);
            lemma_tag_value(44u32, WireType::LengthDelimited);
            let hl = parts_bytes(p).len() as int;
            let k = varint_len(354u64) as int;
            let v2 = FileOptionsView { php_metadata_namespace: Some(x), ..d };
            lemma_file_options_step(d, s, k, 354u32, hl - k, v2, depth, limit);
        },
    }
}

/// Reading the field `ruby_package` of a `FileOptions` written from `o` sets it to `o`, whatever it held; nothing
/// is written, and nothing changes, for `None`.
proof fn lemma_file_options_read_ruby_package(d: FileOptionsView, o: Option<Seq<char>>, rest: Seq<u8>, depth: nat, limit: nat)
    requires
        parts_encodable(opt_field_parts::<raw::String>(45u32, o)),
    ensures
        file_options_merged(d, parts_bytes(opt_field_parts::<raw::String>(45u32, o)) + rest, depth, limit, false, None) == file_options_merged(if o is Some { FileOptionsView { ruby_package: o, ..d } } else { d }, rest, depth, limit, false, None),
{
    match o {
        None => {
            assert(parts_bytes(opt_field_parts::<raw::String>(45u32, o)) + rest =~= rest);
        },
        Some(x) => {
            let p = field_parts::<raw::String>(45u32, x);
            assert(p[1].0);
            let s = parts_bytes(p) + rest;
            lemma_field_bytes_read::<raw::String>(45u32, x, rest);
            lemma_tag_value(45u32, WireType::LengthDelimited);
            let hl = parts_bytes(p).len() as int;
            let k = varint_len(362u64) as int;
            let v2 = FileOptionsView { ruby_package: Some(x), ..d };
            lemma_file_options_step(d, s, k, 362u32, hl - k, v2, depth, limit);
        },
    }
}

/// Reading unknown field values written one after the other into a `FileOptions`, none with the tag
/// of one of its fields, adds them to its unknown fields.
#[verifier::rlimit(60)]
proof fn lemma_file_options_read_unknown(v: FileOptionsView, ps: Seq<(u32, FieldValue)>, rest: Seq<u8>, depth: nat, limit: nat)
    requires
        forall|k: int| 0 <= k < ps.len() ==> value_readable(#[trigger] ps[k].0, ps[k].1) && !file_options_known_tag(
            tag_value(ps[k].0, field_value_wire_type(ps[k].1)),
        ),
    ensures
        file_options_merged(v, parts_bytes(pairs_parts(ps)) + rest, depth, limit, false, None) == file_options_merged(
            FileOptionsView { unknown_fields: push_pairs(v.unknown_fields, ps), ..v },
            rest,
            depth, limit, false, None,
        ),
    decreases ps.len(),
{
    if ps.len() == 0 {
        assert(parts_bytes(pairs_parts(ps)) + rest =~= rest);
    } else {
        let n = ps[0].0;
        let fv = ps[0].1;
        let tail = ps.drop_first();
        assert forall|k: int| 0 <= k < tail.len() implies value_readable(#[trigger] tail[k].0, tail[k].1) && !file_options_known_tag(
            tag_value(tail[k].0, field_value_wire_type(tail[k].1)),
        ) by {
            assert(tail[k] == ps[k + 1]);
        }
        assert(value_readable(ps[0].0, ps[0].1));
        lemma_parts_bytes_append(field_value_parts(n, fv), pairs_parts(tail));
        let after = parts_bytes(pairs_parts(tail)) + rest;
        let s = parts_bytes(pairs_parts(ps)) + rest;
        assert(s =~= parts_bytes(field_value_parts(n, fv)) + after);
        lemma_read_value_bytes(n, fv, after);
        let t = tag_value(n, field_value_wire_type(fv));
        let hl = parts_bytes(field_value_parts(n, fv)).len() as int;
        let k = varint_len(t as u64) as int;
        let v2 = FileOptionsView { unknown_fields: view_push(v.unknown_fields, n, fv), ..v };
        lemma_file_options_step(v, s, k, t, hl - k, v2, depth, limit);
        lemma_file_options_read_unknown(v2, tail, rest, depth, limit);
    }
}

/// The writability of the parts of a `FileOptions` is that of each field's parts.
proof fn lemma_file_options_parts_encodable(v: FileOptionsView)
    ensures
        parts_encodable(file_options_parts(v)) == (parts_encodable(opt_field_parts::<raw::String>(1u32, v.java_package)) && parts_encodable(opt_field_parts::<raw::String>(8u32, v.java_outer_classname)) && parts_encodable(opt_field_parts::<raw::Enum<file_options::OptimizeMode>>(9u32, v.optimize_for)) && parts_encodable(opt_field_parts::<raw::Bool>(10u32, v.java_multiple_files)) && parts_encodable(opt_field_parts::<raw::String>(11u32, v.go_package)) && parts_encodable(opt_field_parts::<raw::Bool>(16u32, v.cc_generic_services)) && parts_encodable(opt_field_parts::<raw::Bool>(17u32, v.java_generic_services)) && parts_encodable(opt_field_parts::<raw::Bool>(18u32, v.py_generic_services)) && parts_encodable(opt_field_parts::<raw::Bool>(20u32, v.java_generate_equals_and_hash)) && parts_encodable(opt_field_parts::<raw::Bool>(23u32, v.deprecated)) && parts_encodable(opt_field_parts::<raw::Bool>(27u32, v.java_string_check_utf8)) && parts_encodable(opt_field_parts::<raw::Bool>(31u32, v.cc_enable_arenas)) && parts_encodable(opt_field_parts::<raw::String>(36u32, v.objc_class_prefix)) && parts_encodable(opt_field_parts::<raw::String>(37u32, v.csharp_namespace)) && parts_encodable(opt_field_parts::<raw::String>(39u32, v.swift_prefix)) && parts_encodable(opt_field_parts::<raw::String>(40u32, v.php_class_prefix)) && parts_encodable(opt_field_parts::<raw::String>(41u32, v.php_namespace)) && parts_encodable(opt_field_parts::<raw::Bool>(42u32, v.php_generic_services)) && parts_encodable(opt_field_parts::<raw::String>(44u32, v.php_metadata_namespace)) && parts_encodable(opt_field_parts::<raw::String>(45u32, v.ruby_package)) && parts_encodable(uninterpreted_option_seq_parts(999u32, v.uninterpreted_option)) && parts_encodable(set_parts(v.unknown_fields))),
{
    reveal(file_options_parts);
    let p0 = opt_field_parts::<raw::String>(1u32, v.java_package);
    let p1 = opt_field_parts::<raw::String>(8u32, v.java_outer_classname);
    let p2 = opt_field_parts::<raw::Enum<file_options::OptimizeMode>>(9u32, v.optimize_for);
    let p3 = opt_field_parts::<raw::Bool>(10u32, v.java_multiple_files);
    let p4 = opt_field_parts::<raw::String>(11u32, v.go_package);
    let p5 = opt_field_parts::<raw::Bool>(16u32, v.cc_generic_services);
    let p6 = opt_field_parts::<raw::Bool>(17u32, v.java_generic_services);
    let p7 = opt_field_parts::<raw::Bool>(18u32, v.py_generic_services);
    let p8 = opt_field_parts::<raw::Bool>(20u32, v.java_generate_equals_and_hash);
    let p9 = opt_field_parts::<raw::Bool>(23u32, v.deprecated);
    let p10 = opt_field_parts::<raw::Bool>(27u32, v.java_string_check_utf8);
    let p11 = opt_field_parts::<raw::Bool>(31u32, v.cc_enable_arenas);
    let p12 = opt_field_parts::<raw::String>(36u32, v.objc_class_prefix);
    let p13 = opt_field_parts::<raw::String>(37u32, v.csharp_namespace);
    let p14 = opt_field_parts::<raw::String>(39u32, v.swift_prefix);
    let p15 = opt_field_parts::<raw::String>(40u32, v.php_class_prefix);
    let p16 = opt_field_parts::<raw::String>(41u32, v.php_namespace);
    let p17 = opt_field_parts::<raw::Bool>(42u32, v.php_generic_services);
    let p18 = opt_field_parts::<raw::String>(44u32, v.php_metadata_namespace);
    let p19 = opt_field_parts::<raw::String>(45u32, v.ruby_package);
    let p20 = uninterpreted_option_seq_parts(999u32, v.uninterpreted_option);
    let p21 = set_parts(v.unknown_fields);
    let q21 = p21;
    let q20 = p20 + q21;
    lemma_parts_encodable_two(p20, q21);
    let q19 = p19 + q20;
    lemma_parts_encodable_two(p19, q20);
    let q18 = p18 + q19;
    lemma_parts_encodable_two(p18, q19);
    let q17 = p17 + q18;
    lemma_parts_encodable_two(p17, q18);
    let q16 = p16 + q17;
    lemma_parts_encodable_two(p16, q17);
    let q15 = p15 + q16;
    lemma_parts_encodable_two(p15, q16);
    let q14 = p14 + q15;
    lemma_parts_encodable_two(p14, q15);
    let q13 = p13 + q14;
    lemma_parts_encodable_two(p13, q14);
    let q12 = p12 + q13;
    lemma_parts_encodable_two(p12, q13);
    let q11 = p11 + q12;
    lemma_parts_encodable_two(p11, q12);
    let q10 = p10 + q11;
    lemma_parts_encodable_two(p10, q11);
    let q9 = p9 + q10;
    lemma_parts_encodable_two(p9, q10);
    let q8 = p8 + q9;
    lemma_parts_encodable_two(p8, q9);
    let q7 = p7 + q8;
    lemma_parts_encodable_two(p7, q8);
    let q6 = p6 + q7;
    lemma_parts_encodable_two(p6, q7);
    let q5 = p5 + q6;
    lemma_parts_encodable_two(p5, q6);
    let q4 = p4 + q5;
    lemma_parts_encodable_two(p4, q5);
    let q3 = p3 + q4;
    lemma_parts_encodable_two(p3, q4);
    let q2 = p2 + q3;
    lemma_parts_encodable_two(p2, q3);
    let q1 = p1 + q2;
    lemma_parts_encodable_two(p1, q2);
    let q0 = p0 + q1;
    lemma_parts_encodable_two(p0, q1);
    assert(file_options_parts(v) == q0);
}

/// The bytes of the parts of a `FileOptions` are those of each field's parts, one after the other.
proof fn lemma_file_options_parts_bytes(v: FileOptionsView)
    ensures
        parts_bytes(file_options_parts(v)) == parts_bytes(opt_field_parts::<raw::String>(1u32, v.java_package)) + (parts_bytes(opt_field_parts::<raw::String>(8u32, v.java_outer_classname)) + (parts_bytes(opt_field_parts::<raw::Enum<file_options::OptimizeMode>>(9u32, v.optimize_for)) + (parts_bytes(opt_field_parts::<raw::Bool>(10u32, v.java_multiple_files)) + (parts_bytes(opt_field_parts::<raw::String>(11u32, v.go_package)) + (parts_bytes(opt_field_parts::<raw::Bool>(16u32, v.cc_generic_services)) + (parts_bytes(opt_field_parts::<raw::Bool>(17u32, v.java_generic_services)) + (parts_bytes(opt_field_parts::<raw::Bool>(18u32, v.py_generic_services)) + (parts_bytes(opt_field_parts::<raw::Bool>(20u32, v.java_generate_equals_and_hash)) + (parts_bytes(opt_field_parts::<raw::Bool>(23u32, v.deprecated)) + (parts_bytes(opt_field_parts::<raw::Bool>(27u32, v.java_string_check_utf8)) + (parts_bytes(opt_field_parts::<raw::Bool>(31u32, v.cc_enable_arenas)) + (parts_bytes(opt_field_parts::<raw::String>(36u32, v.objc_class_prefix)) + (parts_bytes(opt_field_parts::<raw::String>(37u32, v.csharp_namespace)) + (parts_bytes(opt_field_parts::<raw::String>(39u32, v.swift_prefix)) + (parts_bytes(opt_field_parts::<raw::String>(40u32, v.php_class_prefix)) + (parts_bytes(opt_field_parts::<raw::String>(41u32, v.php_namespace)) + (parts_bytes(opt_field_parts::<raw::Bool>(42u32, v.php_generic_services)) + (parts_bytes(opt_field_parts::<raw::String>(44u32, v.php_metadata_namespace)) + (parts_bytes(opt_field_parts::<raw::String>(45u32, v.ruby_package)) + (parts_bytes(uninterpreted_option_seq_parts(999u32, v.uninterpreted_option)) + parts_bytes(set_parts(v.unknown_fields)))))))))))))))))))))),
{
    reveal(file_options_parts);
    let p0 = opt_field_parts::<raw::String>(1u32, v.java_package);
    let p1 = opt_field_parts::<raw::String>(8u32, v.java_outer_classname);
    let p2 = opt_field_parts::<raw::Enum<file_options::OptimizeMode>>(9u32, v.optimize_for);
    let p3 = opt_field_parts::<raw::Bool>(10u32, v.java_multiple_files);
    let p4 = opt_field_parts::<raw::String>(11u32, v.go_package);
    let p5 = opt_field_parts::<raw::Bool>(16u32, v.cc_generic_services);
    let p6 = opt_field_parts::<raw::Bool>(17u32, v.java_generic_services);
    let p7 = opt_field_parts::<raw::Bool>(18u32, v.py_generic_services);
    let p8 = opt_field_parts::<raw::Bool>(20u32, v.java_generate_equals_and_hash);
    let p9 = opt_field_parts::<raw::Bool>(23u32, v.deprecated);
    let p10 = opt_field_parts::<raw::Bool>(27u32, v.java_string_check_utf8);
    let p11 = opt_field_parts::<raw::Bool>(31u32, v.cc_enable_arenas);
    let p12 = opt_field_parts::<raw::String>(36u32, v.objc_class_prefix);
    let p13 = opt_field_parts::<raw::String>(37u32, v.csharp_namespace);
    let p14 = opt_field_parts::<raw::String>(39u32, v.swift_prefix);
    let p15 = opt_field_parts::<raw::String>(40u32, v.php_class_prefix);
    let p16 = opt_field_parts::<raw::String>(41u32, v.php_namespace);
    let p17 = opt_field_parts::<raw::Bool>(42u32, v.php_generic_services);
    let p18 = opt_field_parts::<raw::String>(44u32, v.php_metadata_namespace);
    let p19 = opt_field_parts::<raw::String>(45u32, v.ruby_package);
    let p20 = uninterpreted_option_seq_parts(999u32, v.uninterpreted_option);
    let p21 = set_parts(v.unknown_fields);
    let q21 = p21;
    let q20 = p20 + q21;
    lemma_parts_bytes_append(p20, q21);
    let q19 = p19 + q20;
    lemma_parts_bytes_append(p19, q20);
    let q18 = p18 + q19;
    lemma_parts_bytes_append(p18, q19);
    let q17 = p17 + q18;
    lemma_parts_bytes_append(p17, q18);
    let q16 = p16 + q17;
    lemma_parts_bytes_append(p16, q17);
    let q15 = p15 + q16;
    lemma_parts_bytes_append(p15, q16);
    let q14 = p14 + q15;
    lemma_parts_bytes_append(p14, q15);
    let q13 = p13 + q14;
    lemma_parts_bytes_append(p13, q14);
    let q12 = p12 + q13;
    lemma_parts_bytes_append(p12, q13);
    let q11 = p11 + q12;
    lemma_parts_bytes_append(p11, q12);
    let q10 = p10 + q11;
    lemma_parts_bytes_append(p10, q11);
    let q9 = p9 + q10;
    lemma_parts_bytes_append(p9, q10);
    let q8 = p8 + q9;
    lemma_parts_bytes_append(p8, q9);
    let q7 = p7 + q8;
    lemma_parts_bytes_append(p7, q8);
    let q6 = p6 + q7;
    lemma_parts_bytes_append(p6, q7);
    let q5 = p5 + q6;
    lemma_parts_bytes_append(p5, q6);
    let q4 = p4 + q5;
    lemma_parts_bytes_append(p4, q5);
    let q3 = p3 + q4;
    lemma_parts_bytes_append(p3, q4);
    let q2 = p2 + q3;
    lemma_parts_bytes_append(p2, q3);
    let q1 = p1 + q2;
    lemma_parts_bytes_append(p1, q2);
    let q0 = p0 + q1;
    lemma_parts_bytes_append(p0, q1);
    assert(file_options_parts(v) == q0);
}

/// The message a `FileOptions` `d` becomes when `v` is merged into it: each field `v` holds once
/// replaces the one `d` holds, the values of each repeated field of `v` follow those of `d`,
/// and the unknown fields of `v` are added to those of `d`, field number by field number.
pub open spec fn file_options_merge_view(d: FileOptionsView, v: FileOptionsView) -> FileOptionsView {
    FileOptionsView { java_package: newer_or(v.java_package, d.java_package), java_outer_classname: newer_or(v.java_outer_classname, d.java_outer_classname), java_multiple_files: newer_or(v.java_multiple_files, d.java_multiple_files), java_generate_equals_and_hash: newer_or(v.java_generate_equals_and_hash, d.java_generate_equals_and_hash), java_string_check_utf8: newer_or(v.java_string_check_utf8, d.java_string_check_utf8), optimize_for: newer_or(v.optimize_for, d.optimize_for), go_package: newer_or(v.go_package, d.go_package), cc_generic_services: newer_or(v.cc_generic_services, d.cc_generic_services), java_generic_services: newer_or(v.java_generic_services, d.java_generic_services), py_generic_services: newer_or(v.py_generic_services, d.py_generic_services), php_generic_services: newer_or(v.php_generic_services, d.php_generic_services), deprecated: newer_or(v.deprecated, d.deprecated), cc_enable_arenas: newer_or(v.cc_enable_arenas, d.cc_enable_arenas), objc_class_prefix: newer_or(v.objc_class_prefix, d.objc_class_prefix), csharp_namespace: newer_or(v.csharp_namespace, d.csharp_namespace), swift_prefix: newer_or(v.swift_prefix, d.swift_prefix), php_class_prefix: newer_or(v.php_class_prefix, d.php_class_prefix), php_namespace: newer_or(v.php_namespace, d.php_namespace), php_metadata_namespace: newer_or(v.php_metadata_namespace, d.php_metadata_namespace), ruby_package: newer_or(v.ruby_package, d.ruby_package), uninterpreted_option: d.uninterpreted_option + v.uninterpreted_option, unknown_fields: view_merge(d.unknown_fields, v.unknown_fields) }
}

/// Whether merging `ra` into `a` gives what merging `rb` into `b` gives.
#[verifier::opaque]
spec fn file_options_same_merge(a: FileOptionsView, ra: Seq<u8>, b: FileOptionsView, rb: Seq<u8>, depth: nat, limit: nat) -> bool {
    file_options_merged(a, ra, depth, limit, false, None) == file_options_merged(b, rb, depth, limit, false, None)
}

/// Whether merging `ra` into `a` gives `y`.
#[verifier::opaque]
spec fn file_options_merges_to(a: FileOptionsView, ra: Seq<u8>, y: FileOptionsView, depth: nat, limit: nat) -> bool {
    file_options_merged(a, ra, depth, limit, false, None) == Ok::<FileOptionsView, ReadError>(y)
}

proof fn lemma_file_options_same_merge_trans(a: FileOptionsView, ra: Seq<u8>, b: FileOptionsView, rb: Seq<u8>, c: FileOptionsView, rc: Seq<u8>, depth: nat, limit: nat)
    requires
        file_options_same_merge(a, ra, b, rb, depth, limit),
        file_options_merged(b, rb, depth, limit, false, None) == file_options_merged(c, rc, depth, limit, false, None),
    ensures
        file_options_same_merge(a, ra, c, rc, depth, limit),
{
    reveal(file_options_same_merge);
}

proof fn lemma_file_options_same_merge_join(a: FileOptionsView, ra: Seq<u8>, b: FileOptionsView, rb: Seq<u8>, c: FileOptionsView, rc: Seq<u8>, y: FileOptionsView, depth: nat, limit: nat)
    requires
        file_options_same_merge(a, ra, b, rb, depth, limit),
        file_options_same_merge(b, rb, c, rc, depth, limit),
        file_options_merges_to(c, rc, y, depth, limit),
    ensures
        file_options_merges_to(a, ra, y, depth, limit),
{
    reveal(file_options_same_merge);
    reveal(file_options_merges_to);
}

/// Reading the bytes of the parts of a `FileOptions` `v` for its fields from the first on, into `d` with the
/// fields before them merged, merges the fields up to the next part.
#[verifier::spinoff_prover]
#[verifier::rlimit(100)]
proof fn lemma_file_options_merge_fields_0(d: FileOptionsView, v: FileOptionsView, depth: nat, limit: nat)
    requires
        parts_encodable(opt_field_parts::<raw::String>(1u32, v.java_package)),
        parts_encodable(opt_field_parts::<raw::String>(8u32, v.java_outer_classname)),
        parts_encodable(opt_field_parts::<raw::Enum<file_options::OptimizeMode>>(9u32, v.optimize_for)),
        parts_encodable(opt_field_parts::<raw::Bool>(10u32, v.java_multiple_files)),
        parts_encodable(opt_field_parts::<raw::String>(11u32, v.go_package)),
        parts_encodable(opt_field_parts::<raw::Bool>(16u32, v.cc_generic_services)),
        parts_encodable(opt_field_parts::<raw::Bool>(17u32, v.java_generic_services)),
        parts_encodable(opt_field_parts::<raw::Bool>(18u32, v.py_generic_services)),
        parts_encodable(opt_field_parts::<raw::Bool>(20u32, v.java_generate_equals_and_hash)),
        parts_encodable(opt_field_parts::<raw::Bool>(23u32, v.deprecated)),
        file_options_roundtrips(v, depth, limit),
    ensures
        file_options_same_merge(d, parts_bytes(opt_field_parts::<raw::String>(1u32, v.java_package)) + (parts_bytes(opt_field_parts::<raw::String>(8u32, v.java_outer_classname)) + (parts_bytes(opt_field_parts::<raw::Enum<file_options::OptimizeMode>>(9u32, v.optimize_for)) + (parts_bytes(opt_field_parts::<raw::Bool>(10u32, v.java_multiple_files)) + (parts_bytes(opt_field_parts::<raw::String>(11u32, v.go_package)) + (parts_bytes(opt_field_parts::<raw::Bool>(16u32, v.cc_generic_services)) + (parts_bytes(opt_field_parts::<raw::Bool>(17u32, v.java_generic_services)) + (parts_bytes(opt_field_parts::<raw::Bool>(18u32, v.py_generic_services)) + (parts_bytes(opt_field_parts::<raw::Bool>(20u32, v.java_generate_equals_and_hash)) + (parts_bytes(opt_field_parts::<raw::Bool>(23u32, v.deprecated)) + (parts_bytes(opt_field_parts::<raw::Bool>(27u32, v.java_string_check_utf8)) + (parts_bytes(opt_field_parts::<raw::Bool>(31u32, v.cc_enable_arenas)) + (parts_bytes(opt_field_parts::<raw::String>(36u32, v.objc_class_prefix)) + (parts_bytes(opt_field_parts::<raw::String>(37u32, v.csharp_namespace)) + (parts_bytes(opt_field_parts::<raw::String>(39u32, v.swift_prefix)) + (parts_bytes(opt_field_parts::<raw::String>(40u32, v.php_class_prefix)) + (parts_bytes(opt_field_parts::<raw::String>(41u32, v.php_namespace)) + (parts_bytes(opt_field_parts::<raw::Bool>(42u32, v.php_generic_services)) + (parts_bytes(opt_field_parts::<raw::String>(44u32, v.php_metadata_namespace)) + (parts_bytes(opt_field_parts::<raw::String>(45u32, v.ruby_package)) + (parts_bytes(uninterpreted_option_seq_parts(999u32, v.uninterpreted_option)) + (parts_bytes(set_parts(v.unknown_fields))))))))))))))))))))))), FileOptionsView { java_package: newer_or(v.java_package, d.java_package), java_outer_classname: newer_or(v.java_outer_classname, d.java_outer_classname), java_multiple_files: newer_or(v.java_multiple_files, d.java_multiple_files), java_generate_equals_and_hash: newer_or(v.java_generate_equals_and_hash, d.java_generate_equals_and_hash), java_string_check_utf8: d.java_string_check_utf8, optimize_for: newer_or(v.optimize_for, d.optimize_for), go_package: newer_or(v.go_package, d.go_package), cc_generic_services: newer_or(v.cc_generic_services, d.cc_generic_services), java_generic_services: newer_or(v.java_generic_services, d.java_generic_services), py_generic_services: newer_or(v.py_generic_services, d.py_generic_services), php_generic_services: d.php_generic_services, deprecated: newer_or(v.deprecated, d.deprecated), cc_enable_arenas: d.cc_enable_arenas, objc_class_prefix: d.objc_class_prefix, csharp_namespace: d.csharp_namespace, swift_prefix: d.swift_prefix, php_class_prefix: d.php_class_prefix, php_namespace: d.php_namespace, php_metadata_namespace: d.php_metadata_namespace, ruby_package: d.ruby_package, uninterpreted_option: d.uninterpreted_option, unknown_fields: d.unknown_fields }, parts_bytes(opt_field_parts::<raw::Bool>(27u32, v.java_string_check_utf8)) + (parts_bytes(opt_field_parts::<raw::Bool>(31u32, v.cc_enable_arenas)) + (parts_bytes(opt_field_parts::<raw::String>(36u32, v.objc_class_prefix)) + (parts_bytes(opt_field_parts::<raw::String>(37u32, v.csharp_namespace)) + (parts_bytes(opt_field_parts::<raw::String>(39u32, v.swift_prefix)) + (parts_bytes(opt_field_parts::<raw::String>(40u32, v.php_class_prefix)) + (parts_bytes(opt_field_parts::<raw::String>(41u32, v.php_namespace)) + (parts_bytes(opt_field_parts::<raw::Bool>(42u32, v.php_generic_services)) + (parts_bytes(opt_field_parts::<raw::String>(44u32, v.php_metadata_namespace)) + (parts_bytes(opt_field_parts::<raw::String>(45u32, v.ruby_package)) + (parts_bytes(uninterpreted_option_seq_parts(999u32, v.uninterpreted_option)) + (parts_bytes(set_parts(v.unknown_fields))))))))))))), depth, limit),
{
    let p0 = opt_field_parts::<raw::String>(1u32, v.java_package);
    let p1 = opt_field_parts::<raw::String>(8u32, v.java_outer_classname);
    let p2 = opt_field_parts::<raw::Enum<file_options::OptimizeMode>>(9u32, v.optimize_for);
    let p3 = opt_field_parts::<raw::Bool>(10u32, v.java_multiple_files);
    let p4 = opt_field_parts::<raw::String>(11u32, v.go_package);
    let p5 = opt_field_parts::<raw::Bool>(16u32, v.cc_generic_services);
    let p6 = opt_field_parts::<raw::Bool>(17u32, v.java_generic_services);
    let p7 = opt_field_parts::<raw::Bool>(18u32, v.py_generic_services);
    let p8 = opt_field_parts::<raw::Bool>(20u32, v.java_generate_equals_and_hash);
    let p9 = opt_field_parts::<raw::Bool>(23u32, v.deprecated);
    let p10 = opt_field_parts::<raw::Bool>(27u32, v.java_string_check_utf8);
    let p11 = opt_field_parts::<raw::Bool>(31u32, v.cc_enable_arenas);
    let p12 = opt_field_parts::<raw::String>(36u32, v.objc_class_prefix);
    let p13 = opt_field_parts::<raw::String>(37u32, v.csharp_namespace);
    let p14 = opt_field_parts::<raw::String>(39u32, v.swift_prefix);
    let p15 = opt_field_parts::<raw::String>(40u32, v.php_class_prefix);
    let p16 = opt_field_parts::<raw::String>(41u32, v.php_namespace);
    let p17 = opt_field_parts::<raw::Bool>(42u32, v.php_generic_services);
    let p18 = opt_field_parts::<raw::String>(44u32, v.php_metadata_namespace);
    let p19 = opt_field_parts::<raw::String>(45u32, v.ruby_package);
    let p20 = uninterpreted_option_seq_parts(999u32, v.uninterpreted_option);
    let p21 = set_parts(v.unknown_fields);
    let b0 = parts_bytes(p0);
    let b1 = parts_bytes(p1);
    let b2 = parts_bytes(p2);
    let b3 = parts_bytes(p3);
    let b4 = parts_bytes(p4);
    let b5 = parts_bytes(p5);
    let b6 = parts_bytes(p6);
    let b7 = parts_bytes(p7);
    let b8 = parts_bytes(p8);
    let b9 = parts_bytes(p9);
    let b10 = parts_bytes(p10);
    let b11 = parts_bytes(p11);
    let b12 = parts_bytes(p12);
    let b13 = parts_bytes(p13);
    let b14 = parts_bytes(p14);
    let b15 = parts_bytes(p15);
    let b16 = parts_bytes(p16);
    let b17 = parts_bytes(p17);
    let b18 = parts_bytes(p18);
    let b19 = parts_bytes(p19);
    let b20 = parts_bytes(p20);
    let b21 = parts_bytes(p21);
    let r21 = b21;
    let r20 = b20 + r21;
    let r19 = b19 + r20;
    let r18 = b18 + r19;
    let r17 = b17 + r18;
    let r16 = b16 + r17;
    let r15 = b15 + r16;
    let r14 = b14 + r15;
    let r13 = b13 + r14;
    let r12 = b12 + r13;
    let r11 = b11 + r12;
    let r10 = b10 + r11;
    let r9 = b9 + r10;
    let r8 = b8 + r9;
    let r7 = b7 + r8;
    let r6 = b6 + r7;
    let r5 = b5 + r6;
    let r4 = b4 + r5;
    let r3 = b3 + r4;
    let r2 = b2 + r3;
    let r1 = b1 + r2;
    let r0 = b0 + r1;
    let d0 = d;
    assert(file_options_same_merge(d0, r0, d0, r0, depth, limit)) by {
        reveal(file_options_same_merge);
    }
    let d1 = FileOptionsView { java_package: newer_or(v.java_package, d.java_package), ..d0 };
    assert(file_options_same_merge(d0, r0, d1, r1, depth, limit)) by {
        lemma_file_options_read_java_package(d0, v.java_package, r1, depth, limit);
        assert((if v.java_package is Some { FileOptionsView { java_package: v.java_package, ..d0 } } else { d0 }) == d1);
        lemma_file_options_same_merge_trans(d0, r0, d0, r0, d1, r1, depth, limit);
    }
    let d2 = FileOptionsView { java_outer_classname: newer_or(v.java_outer_classname, d.java_outer_classname), ..d1 };
    assert(file_options_same_merge(d0, r0, d2, r2, depth, limit)) by {
        lemma_file_options_read_java_outer_classname(d1, v.java_outer_classname, r2, depth, limit);
        assert((if v.java_outer_classname is Some { FileOptionsView { java_outer_classname: v.java_outer_classname, ..d1 } } else { d1 }) == d2);
        lemma_file_options_same_merge_trans(d0, r0, d1, r1, d2, r2, depth, limit);
    }
    let d3 = FileOptionsView { optimize_for: newer_or(v.optimize_for, d.optimize_for), ..d2 };
    assert(file_options_same_merge(d0, r0, d3, r3, depth, limit)) by {
        lemma_file_options_read_optimize_for(d2, v.optimize_for, r3, depth, limit);
        assert((if v.optimize_for is Some { FileOptionsView { optimize_for: v.optimize_for, ..d2 } } else { d2 }) == d3);
        lemma_file_options_same_merge_trans(d0, r0, d2, r2, d3, r3, depth, limit);
    }
    let d4 = FileOptionsView { java_multiple_files: newer_or(v.java_multiple_files, d.java_multiple_files), ..d3 };
    assert(file_options_same_merge(d0, r0, d4, r4, depth, limit)) by {
        lemma_file_options_read_java_multiple_files(d3, v.java_multiple_files, r4, depth, limit);
        assert((if v.java_multiple_files is Some { FileOptionsView { java_multiple_files: v.java_multiple_files, ..d3 } } else { d3 }) == d4);
        lemma_file_options_same_merge_trans(d0, r0, d3, r3, d4, r4, depth, limit);
    }
    let d5 = FileOptionsView { go_package: newer_or(v.go_package, d.go_package), ..d4 };
    assert(file_options_same_merge(d0, r0, d5, r5, depth, limit)) by {
        lemma_file_options_read_go_package(d4, v.go_package, r5, depth, limit);
        assert((if v.go_package is Some { FileOptionsView { go_package: v.go_package, ..d4 } } else { d4 }) == d5);
        lemma_file_options_same_merge_trans(d0, r0, d4, r4, d5, r5, depth, limit);
    }
    let d6 = FileOptionsView { cc_generic_services: newer_or(v.cc_generic_services, d.cc_generic_services), ..d5 };
    assert(file_options_same_merge(d0, r0, d6, r6, depth, limit)) by {
        lemma_file_options_read_cc_generic_services(d5, v.cc_generic_services, r6, depth, limit);
        assert((if v.cc_generic_services is Some { FileOptionsView { cc_generic_services: v.cc_generic_services, ..d5 } } else { d5 }) == d6);
        lemma_file_options_same_merge_trans(d0, r0, d5, r5, d6, r6, depth, limit);
    }
    let d7 = FileOptionsView { java_generic_services: newer_or(v.java_generic_services, d.java_generic_services), ..d6 };
    assert(file_options_same_merge(d0, r0, d7, r7, depth, limit)) by {
        lemma_file_options_read_java_generic_services(d6, v.java_generic_services, r7, depth, limit);
        assert((if v.java_generic_services is Some { FileOptionsView { java_generic_services: v.java_generic_services, ..d6 } } else { d6 }) == d7);
        lemma_file_options_same_merge_trans(d0, r0, d6, r6, d7, r7, depth, limit);
    }
    let d8 = FileOptionsView { py_generic_services: newer_or(v.py_generic_services, d.py_generic_services), ..d7 };
    assert(file_options_same_merge(d0, r0, d8, r8, depth, limit)) by {
        lemma_file_options_read_py_generic_services(d7, v.py_generic_services, r8, depth, limit);
        assert((if v.py_generic_services is Some { FileOptionsView { py_generic_services: v.py_generic_services, ..d7 } } else { d7 }) == d8);
        lemma_file_options_same_merge_trans(d0, r0, d7, r7, d8, r8, depth, limit);
    }
    let d9 = FileOptionsView { java_generate_equals_and_hash: newer_or(v.java_generate_equals_and_hash, d.java_generate_equals_and_hash), ..d8 };
    assert(file_options_same_merge(d0, r0, d9, r9, depth, limit)) by {
        lemma_file_options_read_java_generate_equals_and_hash(d8, v.java_generate_equals_and_hash, r9, depth, limit);
        assert((if v.java_generate_equals_and_hash is Some { FileOptionsView { java_generate_equals_and_hash: v.java_generate_equals_and_hash, ..d8 } } else { d8 }) == d9);
        lemma_file_options_same_merge_trans(d0, r0, d8, r8, d9, r9, depth, limit);
    }
    let d10 = FileOptionsView { deprecated: newer_or(v.deprecated, d.deprecated), ..d9 };
    assert(file_options_same_merge(d0, r0, d10, r10, depth, limit)) by {
        lemma_file_options_read_deprecated(d9, v.deprecated, r10, depth, limit);
        assert((if v.deprecated is Some { FileOptionsView { deprecated: v.deprecated, ..d9 } } else { d9 }) == d10);
        lemma_file_options_same_merge_trans(d0, r0, d9, r9, d10, r10, depth, limit);
    }
    assert(d10 == FileOptionsView { java_package: newer_or(v.java_package, d.java_package), java_outer_classname: newer_or(v.java_outer_classname, d.java_outer_classname), java_multiple_files: newer_or(v.java_multiple_files, d.java_multiple_files), java_generate_equals_and_hash: newer_or(v.java_generate_equals_and_hash, d.java_generate_equals_and_hash), java_string_check_utf8: d.java_string_check_utf8, optimize_for: newer_or(v.optimize_for, d.optimize_for), go_package: newer_or(v.go_package, d.go_package), cc_generic_services: newer_or(v.cc_generic_services, d.cc_generic_services), java_generic_services: newer_or(v.java_generic_services, d.java_generic_services), py_generic_services: newer_or(v.py_generic_services, d.py_generic_services), php_generic_services: d.php_generic_services, deprecated: newer_or(v.deprecated, d.deprecated), cc_enable_arenas: d.cc_enable_arenas, objc_class_prefix: d.objc_class_prefix, csharp_namespace: d.csharp_namespace, swift_prefix: d.swift_prefix, php_class_prefix: d.php_class_prefix, php_namespace: d.php_namespace, php_metadata_namespace: d.php_metadata_namespace, ruby_package: d.ruby_package, uninterpreted_option: d.uninterpreted_option, unknown_fields: d.unknown_fields });
}

/// Reading the bytes of the parts of a `FileOptions` `v` for its fields from the middle on, into `d` with the
/// fields before them merged, merges the fields up to the next part.
#[verifier::spinoff_prover]
#[verifier::rlimit(100)]
proof fn lemma_file_options_merge_fields_1(d: FileOptionsView, v: FileOptionsView, depth: nat, limit: nat)
    requires
        parts_encodable(opt_field_parts::<raw::Bool>(27u32, v.java_string_check_utf8)),
        parts_encodable(opt_field_parts::<raw::Bool>(31u32, v.cc_enable_arenas)),
        parts_encodable(opt_field_parts::<raw::String>(36u32, v.objc_class_prefix)),
        parts_encodable(opt_field_parts::<raw::String>(37u32, v.csharp_namespace)),
        parts_encodable(opt_field_parts::<raw::String>(39u32, v.swift_prefix)),
        parts_encodable(opt_field_parts::<raw::String>(40u32, v.php_class_prefix)),
        parts_encodable(opt_field_parts::<raw::String>(41u32, v.php_namespace)),
        parts_encodable(opt_field_parts::<raw::Bool>(42u32, v.php_generic_services)),
        parts_encodable(opt_field_parts::<raw::String>(44u32, v.php_metadata_namespace)),
        parts_encodable(opt_field_parts::<raw::String>(45u32, v.ruby_package)),
        parts_encodable(uninterpreted_option_seq_parts(999u32, v.uninterpreted_option)),
        file_options_roundtrips(v, depth, limit),
    ensures
        file_options_same_merge(FileOptionsView { java_package: newer_or(v.java_package, d.java_package), java_outer_classname: newer_or(v.java_outer_classname, d.java_outer_classname), java_multiple_files: newer_or(v.java_multiple_files, d.java_multiple_files), java_generate_equals_and_hash: newer_or(v.java_generate_equals_and_hash, d.java_generate_equals_and_hash), java_string_check_utf8: d.java_string_check_utf8, optimize_for: newer_or(v.optimize_for, d.optimize_for), go_package: newer_or(v.go_package, d.go_package), cc_generic_services: newer_or(v.cc_generic_services, d.cc_generic_services), java_generic_services: newer_or(v.java_generic_services, d.java_generic_services), py_generic_services: newer_or(v.py_generic_services, d.py_generic_services), php_generic_services: d.php_generic_services, deprecated: newer_or(v.deprecated, d.deprecated), cc_enable_arenas: d.cc_enable_arenas, objc_class_prefix: d.objc_class_prefix, csharp_namespace: d.csharp_namespace, swift_prefix: d.swift_prefix, php_class_prefix: d.php_class_prefix, php_namespace: d.php_namespace, php_metadata_namespace: d.php_metadata_namespace, ruby_package: d.ruby_package, uninterpreted_option: d.uninterpreted_option, unknown_fields: d.unknown_fields }, parts_bytes(opt_field_parts::<raw::Bool>(27u32, v.java_string_check_utf8)) + (parts_bytes(opt_field_parts::<raw::Bool>(31u32, v.cc_enable_arenas)) + (parts_bytes(opt_field_parts::<raw::String>(36u32, v.objc_class_prefix)) + (parts_bytes(opt_field_parts::<raw::String>(37u32, v.csharp_namespace)) + (parts_bytes(opt_field_parts::<raw::String>(39u32, v.swift_prefix)) + (parts_bytes(opt_field_parts::<raw::String>(40u32, v.php_class_prefix)) + (parts_bytes(opt_field_parts::<raw::String>(41u32, v.php_namespace)) + (parts_bytes(opt_field_parts::<raw::Bool>(42u32, v.php_generic_services)) + (parts_bytes(opt_field_parts::<raw::String>(44u32, v.php_metadata_namespace)) + (parts_bytes(opt_field_parts::<raw::String>(45u32, v.ruby_package)) + (parts_bytes(uninterpreted_option_seq_parts(999u32, v.uninterpreted_option)) + (parts_bytes(set_parts(v.unknown_fields))))))))))))), FileOptionsView { java_package: newer_or(v.java_package, d.java_package), java_outer_classname: newer_or(v.java_outer_classname, d.java_outer_classname), java_multiple_files: newer_or(v.java_multiple_files, d.java_multiple_files), java_generate_equals_and_hash: newer_or(v.java_generate_equals_and_hash, d.java_generate_equals_and_hash), java_string_check_utf8: newer_or(v.java_string_check_utf8, d.java_string_check_utf8), optimize_for: newer_or(v.optimize_for, d.optimize_for), go_package: newer_or(v.go_package, d.go_package), cc_generic_services: newer_or(v.cc_generic_services, d.cc_generic_services), java_generic_services: newer_or(v.java_generic_services, d.java_generic_services), py_generic_services: newer_or(v.py_generic_services, d.py_generic_services), php_generic_services: newer_or(v.php_generic_services, d.php_generic_services), deprecated: newer_or(v.deprecated, d.deprecated), cc_enable_arenas: newer_or(v.cc_enable_arenas, d.cc_enable_arenas), objc_class_prefix: newer_or(v.objc_class_prefix, d.objc_class_prefix), csharp_namespace: newer_or(v.csharp_namespace, d.csharp_namespace), swift_prefix: newer_or(v.swift_prefix, d.swift_prefix), php_class_prefix: newer_or(v.php_class_prefix, d.php_class_prefix), php_namespace: newer_or(v.php_namespace, d.php_namespace), php_metadata_namespace: newer_or(v.php_metadata_namespace, d.php_metadata_namespace), ruby_package: newer_or(v.ruby_package, d.ruby_package), uninterpreted_option: d.uninterpreted_option + v.uninterpreted_option, unknown_fields: d.unknown_fields }, parts_bytes(set_parts(v.unknown_fields)), depth, limit),
{
    let p10 = opt_field_parts::<raw::Bool>(27u32, v.java_string_check_utf8);
    let p11 = opt_field_parts::<raw::Bool>(31u32, v.cc_enable_arenas);
    let p12 = opt_field_parts::<raw::String>(36u32, v.objc_class_prefix);
    let p13 = opt_field_parts::<raw::String>(37u32, v.csharp_namespace);
    let p14 = opt_field_parts::<raw::String>(39u32, v.swift_prefix);
    let p15 = opt_field_parts::<raw::String>(40u32, v.php_class_prefix);
    let p16 = opt_field_parts::<raw::String>(41u32, v.php_namespace);
    let p17 = opt_field_parts::<raw::Bool>(42u32, v.php_generic_services);
    let p18 = opt_field_parts::<raw::String>(44u32, v.php_metadata_namespace);
    let p19 = opt_field_parts::<raw::String>(45u32, v.ruby_package);
    let p20 = uninterpreted_option_seq_parts(999u32, v.uninterpreted_option);
    let p21 = set_parts(v.unknown_fields);
    let b10 = parts_bytes(p10);
    let b11 = parts_bytes(p11);
    let b12 = parts_bytes(p12);
    let b13 = parts_bytes(p13);
    let b14 = parts_bytes(p14);
    let b15 = parts_bytes(p15);
    let b16 = parts_bytes(p16);
    let b17 = parts_bytes(p17);
    let b18 = parts_bytes(p18);
    let b19 = parts_bytes(p19);
    let b20 = parts_bytes(p20);
    let b21 = parts_bytes(p21);
    let r21 = b21;
    let r20 = b20 + r21;
    let r19 = b19 + r20;
    let r18 = b18 + r19;
    let r17 = b17 + r18;
    let r16 = b16 + r17;
    let r15 = b15 + r16;
    let r14 = b14 + r15;
    let r13 = b13 + r14;
    let r12 = b12 + r13;
    let r11 = b11 + r12;
    let r10 = b10 + r11;
    let d10 = FileOptionsView { java_package: newer_or(v.java_package, d.java_package), java_outer_classname: newer_or(v.java_outer_classname, d.java_outer_classname), java_multiple_files: newer_or(v.java_multiple_files, d.java_multiple_files), java_generate_equals_and_hash: newer_or(v.java_generate_equals_and_hash, d.java_generate_equals_and_hash), java_string_check_utf8: d.java_string_check_utf8, optimize_for: newer_or(v.optimize_for, d.optimize_for), go_package: newer_or(v.go_package, d.go_package), cc_generic_services: newer_or(v.cc_generic_services, d.cc_generic_services), java_generic_services: newer_or(v.java_generic_services, d.java_generic_services), py_generic_services: newer_or(v.py_generic_services, d.py_generic_services), php_generic_services: d.php_generic_services, deprecated: newer_or(v.deprecated, d.deprecated), cc_enable_arenas: d.cc_enable_arenas, objc_class_prefix: d.objc_class_prefix, csharp_namespace: d.csharp_namespace, swift_prefix: d.swift_prefix, php_class_prefix: d.php_class_prefix, php_namespace: d.php_namespace, php_metadata_namespace: d.php_metadata_namespace, ruby_package: d.ruby_package, uninterpreted_option: d.uninterpreted_option, unknown_fields: d.unknown_fields };
    assert(file_options_same_merge(d10, r10, d10, r10, depth, limit)) by {
        reveal(file_options_same_merge);
    }
    let d11 = FileOptionsView { java_string_check_utf8: newer_or(v.java_string_check_utf8, d.java_string_check_utf8), ..d10 };
    assert(file_options_same_merge(d10, r10, d11, r11, depth, limit)) by {
        lemma_file_options_read_java_string_check_utf8(d10, v.java_string_check_utf8, r11, depth, limit);
        assert((if v.java_string_check_utf8 is Some { FileOptionsView { java_string_check_utf8: v.java_string_check_utf8, ..d10 } } else { d10 }) == d11);
        lemma_file_options_same_merge_trans(d10, r10, d10, r10, d11, r11, depth, limit);
    }
    let d12 = FileOptionsView { cc_enable_arenas: newer_or(v.cc_enable_arenas, d.cc_enable_arenas), ..d11 };
    assert(file_options_same_merge(d10, r10, d12, r12, depth, limit)) by {
        lemma_file_options_read_cc_enable_arenas(d11, v.cc_enable_arenas, r12, depth, limit);
        assert((if v.cc_enable_arenas is Some { FileOptionsView { cc_enable_arenas: v.cc_enable_arenas, ..d11 } } else { d11 }) == d12);
        lemma_file_options_same_merge_trans(d10, r10, d11, r11, d12, r12, depth, limit);
    }
    let d13 = FileOptionsView { objc_class_prefix: newer_or(v.objc_class_prefix, d.objc_class_prefix), ..d12 };
    assert(file_options_same_merge(d10, r10, d13, r13, depth, limit)) by {
        lemma_file_options_read_objc_class_prefix(d12, v.objc_class_prefix, r13, depth, limit);
        assert((if v.objc_class_prefix is Some { FileOptionsView { objc_class_prefix: v.objc_class_prefix, ..d12 } } else { d12 }) == d13);
        lemma_file_options_same_merge_trans(d10, r10, d12, r12, d13, r13, depth, limit);
    }
    let d14 = FileOptionsView { csharp_namespace: newer_or(v.csharp_namespace, d.csharp_namespace), ..d13 };
    assert(file_options_same_merge(d10, r10, d14, r14, depth, limit)) by {
        lemma_file_options_read_csharp_namespace(d13, v.csharp_namespace, r14, depth, limit);
        assert((if v.csharp_namespace is Some { FileOptionsView { csharp_namespace: v.csharp_namespace, ..d13 } } else { d13 }) == d14);
        lemma_file_options_same_merge_trans(d10, r10, d13, r13, d14, r14, depth, limit);
    }
    let d15 = FileOptionsView { swift_prefix: newer_or(v.swift_prefix, d.swift_prefix), ..d14 };
    assert(file_options_same_merge(d10, r10, d15, r15, depth, limit)) by {
        lemma_file_options_read_swift_prefix(d14, v.swift_prefix, r15, depth, limit);
        assert((if v.swift_prefix is Some { FileOptionsView { swift_prefix: v.swift_prefix, ..d14 } } else { d14 }) == d15);
        lemma_file_options_same_merge_trans(d10, r10, d14, r14, d15, r15, depth, limit);
    }
    let d16 = FileOptionsView { php_class_prefix: newer_or(v.php_class_prefix, d.php_class_prefix), ..d15 };
    assert(file_options_same_merge(d10, r10, d16, r16, depth, limit)) by {
        lemma_file_options_read_php_class_prefix(d15, v.php_class_prefix, r16, depth, limit);
        assert((if v.php_class_prefix is Some { FileOptionsView { php_class_prefix: v.php_class_prefix, ..d15 } } else { d15 }) == d16);
        lemma_file_options_same_merge_trans(d10, r10, d15, r15, d16, r16, depth, limit);
    }
    let d17 = FileOptionsView { php_namespace: newer_or(v.php_namespace, d.php_namespace), ..d16 };
    assert(file_options_same_merge(d10, r10, d17, r17, depth, limit)) by {
        lemma_file_options_read_php_namespace(d16, v.php_namespace, r17, depth, limit);
        assert((if v.php_namespace is Some { FileOptionsView { php_namespace: v.php_namespace, ..d16 } } else { d16 }) == d17);
        lemma_file_options_same_merge_trans(d10, r10, d16, r16, d17, r17, depth, limit);
    }
    let d18 = FileOptionsView { php_generic_services: newer_or(v.php_generic_services, d.php_generic_services), ..d17 };
    assert(file_options_same_merge(d10, r10, d18, r18, depth, limit)) by {
        lemma_file_options_read_php_generic_services(d17, v.php_generic_services, r18, depth, limit);
        assert((if v.php_generic_services is Some { FileOptionsView { php_generic_services: v.php_generic_services, ..d17 } } else { d17 }) == d18);
        lemma_file_options_same_merge_trans(d10, r10, d17, r17, d18, r18, depth, limit);
    }
    let d19 = FileOptionsView { php_metadata_namespace: newer_or(v.php_metadata_namespace, d.php_metadata_namespace), ..d18 };
    assert(file_options_same_merge(d10, r10, d19, r19, depth, limit)) by {
        lemma_file_options_read_php_metadata_namespace(d18, v.php_metadata_namespace, r19, depth, limit);
        assert((if v.php_metadata_namespace is Some { FileOptionsView { php_metadata_namespace: v.php_metadata_namespace, ..d18 } } else { d18 }) == d19);
        lemma_file_options_same_merge_trans(d10, r10, d18, r18, d19, r19, depth, limit);
    }
    let d20 = FileOptionsView { ruby_package: newer_or(v.ruby_package, d.ruby_package), ..d19 };
    assert(file_options_same_merge(d10, r10, d20, r20, depth, limit)) by {
        lemma_file_options_read_ruby_package(d19, v.ruby_package, r20, depth, limit);
        assert((if v.ruby_package is Some { FileOptionsView { ruby_package: v.ruby_package, ..d19 } } else { d19 }) == d20);
        lemma_file_options_same_merge_trans(d10, r10, d19, r19, d20, r20, depth, limit);
    }
    let d21 = FileOptionsView { uninterpreted_option: d.uninterpreted_option + v.uninterpreted_option, ..d20 };
    assert(file_options_same_merge(d10, r10, d21, r21, depth, limit)) by {
        lemma_file_options_read_uninterpreted_option(d20, v.uninterpreted_option, r21, depth, limit);
        assert(FileOptionsView { uninterpreted_option: d20.uninterpreted_option + v.uninterpreted_option, ..d20 } == d21);
        lemma_file_options_same_merge_trans(d10, r10, d20, r20, d21, r21, depth, limit);
    }
    assert(d21 == FileOptionsView { java_package: newer_or(v.java_package, d.java_package), java_outer_classname: newer_or(v.java_outer_classname, d.java_outer_classname), java_multiple_files: newer_or(v.java_multiple_files, d.java_multiple_files), java_generate_equals_and_hash: newer_or(v.java_generate_equals_and_hash, d.java_generate_equals_and_hash), java_string_check_utf8: newer_or(v.java_string_check_utf8, d.java_string_check_utf8), optimize_for: newer_or(v.optimize_for, d.optimize_for), go_package: newer_or(v.go_package, d.go_package), cc_generic_services: newer_or(v.cc_generic_services, d.cc_generic_services), java_generic_services: newer_or(v.java_generic_services, d.java_generic_services), py_generic_services: newer_or(v.py_generic_services, d.py_generic_services), php_generic_services: newer_or(v.php_generic_services, d.php_generic_services), deprecated: newer_or(v.deprecated, d.deprecated), cc_enable_arenas: newer_or(v.cc_enable_arenas, d.cc_enable_arenas), objc_class_prefix: newer_or(v.objc_class_prefix, d.objc_class_prefix), csharp_namespace: newer_or(v.csharp_namespace, d.csharp_namespace), swift_prefix: newer_or(v.swift_prefix, d.swift_prefix), php_class_prefix: newer_or(v.php_class_prefix, d.php_class_prefix), php_namespace: newer_or(v.php_namespace, d.php_namespace), php_metadata_namespace: newer_or(v.php_metadata_namespace, d.php_metadata_namespace), ruby_package: newer_or(v.ruby_package, d.ruby_package), uninterpreted_option: d.uninterpreted_option + v.uninterpreted_option, unknown_fields: d.unknown_fields });
}

/// Reading the bytes of the unknown fields of a `FileOptions` `v` into `x` adds them to its unknown fields.
#[verifier::rlimit(60)]
proof fn lemma_file_options_merge_unknown(x: FileOptionsView, v: FileOptionsView, depth: nat, limit: nat)
    requires
        file_options_roundtrips(v, depth, limit),
    ensures
        file_options_merges_to(x, parts_bytes(set_parts(v.unknown_fields)), FileOptionsView { unknown_fields: view_merge(x.unknown_fields, v.unknown_fields), ..x }, depth, limit),
{
    reveal(file_options_merges_to);
    let ps = set_pairs(v.unknown_fields);
    lemma_set_pairs(v.unknown_fields, x.unknown_fields);
    lemma_entries_readable(v.unknown_fields);
    assert forall|k: int| 0 <= k < ps.len() implies value_readable(#[trigger] ps[k].0, ps[k].1) && !file_options_known_tag(
        tag_value(ps[k].0, field_value_wire_type(ps[k].1)),
    ) by {
        assert(!file_options_known_tag(tag_value(set_pairs(v.unknown_fields)[k].0, field_value_wire_type(set_pairs(v.unknown_fields)[k].1))));
    }
    lemma_file_options_read_unknown(x, ps, Seq::empty(), depth, limit);
    assert(parts_bytes(set_parts(v.unknown_fields)) + Seq::<u8>::empty() =~= parts_bytes(set_parts(v.unknown_fields)));
}

/// Reading the bytes of the parts of a `FileOptions` `v`, field by field, into `d` merges `v` into `d`.
#[verifier::spinoff_prover]
#[verifier::rlimit(100)]
proof fn lemma_file_options_merge_all(d: FileOptionsView, v: FileOptionsView, depth: nat, limit: nat)
    requires
        parts_encodable(opt_field_parts::<raw::String>(1u32, v.java_package)),
        parts_encodable(opt_field_parts::<raw::String>(8u32, v.java_outer_classname)),
        parts_encodable(opt_field_parts::<raw::Enum<file_options::OptimizeMode>>(9u32, v.optimize_for)),
        parts_encodable(opt_field_parts::<raw::Bool>(10u32, v.java_multiple_files)),
        parts_encodable(opt_field_parts::<raw::String>(11u32, v.go_package)),
        parts_encodable(opt_field_parts::<raw::Bool>(16u32, v.cc_generic_services)),
        parts_encodable(opt_field_parts::<raw::Bool>(17u32, v.java_generic_services)),
        parts_encodable(opt_field_parts::<raw::Bool>(18u32, v.py_generic_services)),
        parts_encodable(opt_field_parts::<raw::Bool>(20u32, v.java_generate_equals_and_hash)),
        parts_encodable(opt_field_parts::<raw::Bool>(23u32, v.deprecated)),
        parts_encodable(opt_field_parts::<raw::Bool>(27u32, v.java_string_check_utf8)),
        parts_encodable(opt_field_parts::<raw::Bool>(31u32, v.cc_enable_arenas)),
        parts_encodable(opt_field_parts::<raw::String>(36u32, v.objc_class_prefix)),
        parts_encodable(opt_field_parts::<raw::String>(37u32, v.csharp_namespace)),
        parts_encodable(opt_field_parts::<raw::String>(39u32, v.swift_prefix)),
        parts_encodable(opt_field_parts::<raw::String>(40u32, v.php_class_prefix)),
        parts_encodable(opt_field_parts::<raw::String>(41u32, v.php_namespace)),
        parts_encodable(opt_field_parts::<raw::Bool>(42u32, v.php_generic_services)),
        parts_encodable(opt_field_parts::<raw::String>(44u32, v.php_metadata_namespace)),
        parts_encodable(opt_field_parts::<raw::String>(45u32, v.ruby_package)),
        parts_encodable(uninterpreted_option_seq_parts(999u32, v.uninterpreted_option)),
        file_options_roundtrips(v, depth, limit),
        parts_bytes(file_options_parts(v)) == parts_bytes(opt_field_parts::<raw::String>(1u32, v.java_package)) + (parts_bytes(opt_field_parts::<raw::String>(8u32, v.java_outer_classname)) + (parts_bytes(opt_field_parts::<raw::Enum<file_options::OptimizeMode>>(9u32, v.optimize_for)) + (parts_bytes(opt_field_parts::<raw::Bool>(10u32, v.java_multiple_files)) + (parts_bytes(opt_field_parts::<raw::String>(11u32, v.go_package)) + (parts_bytes(opt_field_parts::<raw::Bool>(16u32, v.cc_generic_services)) + (parts_bytes(opt_field_parts::<raw::Bool>(17u32, v.java_generic_services)) + (parts_bytes(opt_field_parts::<raw::Bool>(18u32, v.py_generic_services)) + (parts_bytes(opt_field_parts::<raw::Bool>(20u32, v.java_generate_equals_and_hash)) + (parts_bytes(opt_field_parts::<raw::Bool>(23u32, v.deprecated)) + (parts_bytes(opt_field_parts::<raw::Bool>(27u32, v.java_string_check_utf8)) + (parts_bytes(opt_field_parts::<raw::Bool>(31u32, v.cc_enable_arenas)) + (parts_bytes(opt_field_parts::<raw::String>(36u32, v.objc_class_prefix)) + (parts_bytes(opt_field_parts::<raw::String>(37u32, v.csharp_namespace)) + (parts_bytes(opt_field_parts::<raw::String>(39u32, v.swift_prefix)) + (parts_bytes(opt_field_parts::<raw::String>(40u32, v.php_class_prefix)) + (parts_bytes(opt_field_parts::<raw::String>(41u32, v.php_namespace)) + (parts_bytes(opt_field_parts::<raw::Bool>(42u32, v.php_generic_services)) + (parts_bytes(opt_field_parts::<raw::String>(44u32, v.php_metadata_namespace)) + (parts_bytes(opt_field_parts::<raw::String>(45u32, v.ruby_package)) + (parts_bytes(uninterpreted_option_seq_parts(999u32, v.uninterpreted_option)) + parts_bytes(set_parts(v.unknown_fields)))))))))))))))))))))),
    ensures
        file_options_merged(d, parts_bytes(file_options_parts(v)), depth, limit, false, None) == Ok::<FileOptionsView, ReadError>(file_options_merge_view(d, v)),
{
    let x1 = FileOptionsView { java_package: newer_or(v.java_package, d.java_package), java_outer_classname: newer_or(v.java_outer_classname, d.java_outer_classname), java_multiple_files: newer_or(v.java_multiple_files, d.java_multiple_files), java_generate_equals_and_hash: newer_or(v.java_generate_equals_and_hash, d.java_generate_equals_and_hash), java_string_check_utf8: d.java_string_check_utf8, optimize_for: newer_or(v.optimize_for, d.optimize_for), go_package: newer_or(v.go_package, d.go_package), cc_generic_services: newer_or(v.cc_generic_services, d.cc_generic_services), java_generic_services: newer_or(v.java_generic_services, d.java_generic_services), py_generic_services: newer_or(v.py_generic_services, d.py_generic_services), php_generic_services: d.php_generic_services, deprecated: newer_or(v.deprecated, d.deprecated), cc_enable_arenas: d.cc_enable_arenas, objc_class_prefix: d.objc_class_prefix, csharp_namespace: d.csharp_namespace, swift_prefix: d.swift_prefix, php_class_prefix: d.php_class_prefix, php_namespace: d.php_namespace, php_metadata_namespace: d.php_metadata_namespace, ruby_package: d.ruby_package, uninterpreted_option: d.uninterpreted_option, unknown_fields: d.unknown_fields };
    let x = FileOptionsView { java_package: newer_or(v.java_package, d.java_package), java_outer_classname: newer_or(v.java_outer_classname, d.java_outer_classname), java_multiple_files: newer_or(v.java_multiple_files, d.java_multiple_files), java_generate_equals_and_hash: newer_or(v.java_generate_equals_and_hash, d.java_generate_equals_and_hash), java_string_check_utf8: newer_or(v.java_string_check_utf8, d.java_string_check_utf8), optimize_for: newer_or(v.optimize_for, d.optimize_for), go_package: newer_or(v.go_package, d.go_package), cc_generic_services: newer_or(v.cc_generic_services, d.cc_generic_services), java_generic_services: newer_or(v.java_generic_services, d.java_generic_services), py_generic_services: newer_or(v.py_generic_services, d.py_generic_services), php_generic_services: newer_or(v.php_generic_services, d.php_generic_services), deprecated: newer_or(v.deprecated, d.deprecated), cc_enable_arenas: newer_or(v.cc_enable_arenas, d.cc_enable_arenas), objc_class_prefix: newer_or(v.objc_class_prefix, d.objc_class_prefix), csharp_namespace: newer_or(v.csharp_namespace, d.csharp_namespace), swift_prefix: newer_or(v.swift_prefix, d.swift_prefix), php_class_prefix: newer_or(v.php_class_prefix, d.php_class_prefix), php_namespace: newer_or(v.php_namespace, d.php_namespace), php_metadata_namespace: newer_or(v.php_metadata_namespace, d.php_metadata_namespace), ruby_package: newer_or(v.ruby_package, d.ruby_package), uninterpreted_option: d.uninterpreted_option + v.uninterpreted_option, unknown_fields: d.unknown_fields };
    let y = FileOptionsView { unknown_fields: view_merge(x.unknown_fields, v.unknown_fields), ..x };
    lemma_file_options_merge_fields_0(d, v, depth, limit);
    lemma_file_options_merge_fields_1(d, v, depth, limit);
    lemma_file_options_merge_unknown(x, v, depth, limit);
    lemma_file_options_same_merge_join(d, parts_bytes(opt_field_parts::<raw::String>(1u32, v.java_package)) + (parts_bytes(opt_field_parts::<raw::String>(8u32, v.java_outer_classname)) + (parts_bytes(opt_field_parts::<raw::Enum<file_options::OptimizeMode>>(9u32, v.optimize_for)) + (parts_bytes(opt_field_parts::<raw::Bool>(10u32, v.java_multiple_files)) + (parts_bytes(opt_field_parts::<raw::String>(11u32, v.go_package)) + (parts_bytes(opt_field_parts::<raw::Bool>(16u32, v.cc_generic_services)) + (parts_bytes(opt_field_parts::<raw::Bool>(17u32, v.java_generic_services)) + (parts_bytes(opt_field_parts::<raw::Bool>(18u32, v.py_generic_services)) + (parts_bytes(opt_field_parts::<raw::Bool>(20u32, v.java_generate_equals_and_hash)) + (parts_bytes(opt_field_parts::<raw::Bool>(23u32, v.deprecated)) + (parts_bytes(opt_field_parts::<raw::Bool>(27u32, v.java_string_check_utf8)) + (parts_bytes(opt_field_parts::<raw::Bool>(31u32, v.cc_enable_arenas)) + (parts_bytes(opt_field_parts::<raw::String>(36u32, v.objc_class_prefix)) + (parts_bytes(opt_field_parts::<raw::String>(37u32, v.csharp_namespace)) + (parts_bytes(opt_field_parts::<raw::String>(39u32, v.swift_prefix)) + (parts_bytes(opt_field_parts::<raw::String>(40u32, v.php_class_prefix)) + (parts_bytes(opt_field_parts::<raw::String>(41u32, v.php_namespace)) + (parts_bytes(opt_field_parts::<raw::Bool>(42u32, v.php_generic_services)) + (parts_bytes(opt_field_parts::<raw::String>(44u32, v.php_metadata_namespace)) + (parts_bytes(opt_field_parts::<raw::String>(45u32, v.ruby_package)) + (parts_bytes(uninterpreted_option_seq_parts(999u32, v.uninterpreted_option)) + (parts_bytes(set_parts(v.unknown_fields))))))))))))))))))))))), x1, parts_bytes(opt_field_parts::<raw::Bool>(27u32, v.java_string_check_utf8)) + (parts_bytes(opt_field_parts::<raw::Bool>(31u32, v.cc_enable_arenas)) + (parts_bytes(opt_field_parts::<raw::String>(36u32, v.objc_class_prefix)) + (parts_bytes(opt_field_parts::<raw::String>(37u32, v.csharp_namespace)) + (parts_bytes(opt_field_parts::<raw::String>(39u32, v.swift_prefix)) + (parts_bytes(opt_field_parts::<raw::String>(40u32, v.php_class_prefix)) + (parts_bytes(opt_field_parts::<raw::String>(41u32, v.php_namespace)) + (parts_bytes(opt_field_parts::<raw::Bool>(42u32, v.php_generic_services)) + (parts_bytes(opt_field_parts::<raw::String>(44u32, v.php_metadata_namespace)) + (parts_bytes(opt_field_parts::<raw::String>(45u32, v.ruby_package)) + (parts_bytes(uninterpreted_option_seq_parts(999u32, v.uninterpreted_option)) + (parts_bytes(set_parts(v.unknown_fields))))))))))))), x, parts_bytes(set_parts(v.unknown_fields)), y, depth, limit);
    assert(y == file_options_merge_view(d, v));
    assert(file_options_merged(d, parts_bytes(file_options_parts(v)), depth, limit, false, None) == Ok::<FileOptionsView, ReadError>(y)) by {
        reveal(file_options_merges_to);
    }
}

/// Reading the bytes of the parts of a `FileOptions`, field by field, gives the message back.
proof fn lemma_file_options_read_all(v: FileOptionsView, depth: nat, limit: nat)
    requires
        parts_encodable(opt_field_parts::<raw::String>(1u32, v.java_package)),
        parts_encodable(opt_field_parts::<raw::String>(8u32, v.java_outer_classname)),
        parts_encodable(opt_field_parts::<raw::Enum<file_options::OptimizeMode>>(9u32, v.optimize_for)),
        parts_encodable(opt_field_parts::<raw::Bool>(10u32, v.java_multiple_files)),
        parts_encodable(opt_field_parts::<raw::String>(11u32, v.go_package)),
        parts_encodable(opt_field_parts::<raw::Bool>(16u32, v.cc_generic_services)),
        parts_encodable(opt_field_parts::<raw::Bool>(17u32, v.java_generic_services)),
        parts_encodable(opt_field_parts::<raw::Bool>(18u32, v.py_generic_services)),
        parts_encodable(opt_field_parts::<raw::Bool>(20u32, v.java_generate_equals_and_hash)),
        parts_encodable(opt_field_parts::<raw::Bool>(23u32, v.deprecated)),
        parts_encodable(opt_field_parts::<raw::Bool>(27u32, v.java_string_check_utf8)),
        parts_encodable(opt_field_parts::<raw::Bool>(31u32, v.cc_enable_arenas)),
        parts_encodable(opt_field_parts::<raw::String>(36u32, v.objc_class_prefix)),
        parts_encodable(opt_field_parts::<raw::String>(37u32, v.csharp_namespace)),
        parts_encodable(opt_field_parts::<raw::String>(39u32, v.swift_prefix)),
        parts_encodable(opt_field_parts::<raw::String>(40u32, v.php_class_prefix)),
        parts_encodable(opt_field_parts::<raw::String>(41u32, v.php_namespace)),
        parts_encodable(opt_field_parts::<raw::Bool>(42u32, v.php_generic_services)),
        parts_encodable(opt_field_parts::<raw::String>(44u32, v.php_metadata_namespace)),
        parts_encodable(opt_field_parts::<raw::String>(45u32, v.ruby_package)),
        parts_encodable(uninterpreted_option_seq_parts(999u32, v.uninterpreted_option)),
        file_options_roundtrips(v, depth, limit),
        parts_bytes(file_options_parts(v)) == parts_bytes(opt_field_parts::<raw::String>(1u32, v.java_package)) + (parts_bytes(opt_field_parts::<raw::String>(8u32, v.java_outer_classname)) + (parts_bytes(opt_field_parts::<raw::Enum<file_options::OptimizeMode>>(9u32, v.optimize_for)) + (parts_bytes(opt_field_parts::<raw::Bool>(10u32, v.java_multiple_files)) + (parts_bytes(opt_field_parts::<raw::String>(11u32, v.go_package)) + (parts_bytes(opt_field_parts::<raw::Bool>(16u32, v.cc_generic_services)) + (parts_bytes(opt_field_parts::<raw::Bool>(17u32, v.java_generic_services)) + (parts_bytes(opt_field_parts::<raw::Bool>(18u32, v.py_generic_services)) + (parts_bytes(opt_field_parts::<raw::Bool>(20u32, v.java_generate_equals_and_hash)) + (parts_bytes(opt_field_parts::<raw::Bool>(23u32, v.deprecated)) + (parts_bytes(opt_field_parts::<raw::Bool>(27u32, v.java_string_check_utf8)) + (parts_bytes(opt_field_parts::<raw::Bool>(31u32, v.cc_enable_arenas)) + (parts_bytes(opt_field_parts::<raw::String>(36u32, v.objc_class_prefix)) + (parts_bytes(opt_field_parts::<raw::String>(37u32, v.csharp_namespace)) + (parts_bytes(opt_field_parts::<raw::String>(39u32, v.swift_prefix)) + (parts_bytes(opt_field_parts::<raw::String>(40u32, v.php_class_prefix)) + (parts_bytes(opt_field_parts::<raw::String>(41u32, v.php_namespace)) + (parts_bytes(opt_field_parts::<raw::Bool>(42u32, v.php_generic_services)) + (parts_bytes(opt_field_parts::<raw::String>(44u32, v.php_metadata_namespace)) + (parts_bytes(opt_field_parts::<raw::String>(45u32, v.ruby_package)) + (parts_bytes(uninterpreted_option_seq_parts(999u32, v.uninterpreted_option)) + parts_bytes(set_parts(v.unknown_fields)))))))))))))))))))))),
    ensures
        file_options_merged(file_options_default(), parts_bytes(file_options_parts(v)), depth, limit, false, None) == Ok::<FileOptionsView, ReadError>(v),
{
    lemma_file_options_merge_all(file_options_default(), v, depth, limit);
    lemma_entries_readable(v.unknown_fields);
    lemma_merge_into_empty(v.unknown_fields);
    assert(Seq::empty() + v.uninterpreted_option =~= v.uninterpreted_option);
    assert(file_options_merge_view(file_options_default(), v) == v);
}

/// Merging what a `FileOptions` `v` writes into a message `d` merges `v` into `d`: each field `v`
/// holds replaces the one `d` holds, repeated values follow those `d` holds, and unknown fields
/// are added to those of `d`, where `d` holds none of the message fields `v` holds (those are
/// merged into each other), at nesting depth `depth` of a reader with recursion limit `limit`
/// that keeps unknown fields, outside any group, where `v` is read back as written.
pub proof fn lemma_file_options_merge_written(d: FileOptionsView, v: FileOptionsView, depth: nat, limit: nat)
    requires
        parts_encodable(file_options_parts(v)),
        file_options_roundtrips(v, depth, limit),
    ensures
        file_options_merged(d, parts_bytes(file_options_parts(v)), depth, limit, false, None) == Ok::<FileOptionsView, ReadError>(file_options_merge_view(d, v)),
{
    lemma_file_options_parts_encodable(v);
    lemma_file_options_parts_bytes(v);
    lemma_file_options_merge_all(d, v, depth, limit);
}

/// A `FileOptions` is read back as it is written: merging the bytes of its parts into a default
/// message, at nesting depth `depth` of a reader with recursion limit `limit` that keeps
/// unknown fields, outside any group, gives the message back, where it is read back as written.
pub proof fn lemma_file_options_roundtrip(v: FileOptionsView, depth: nat, limit: nat)
    requires
        parts_encodable(file_options_parts(v)),
        file_options_roundtrips(v, depth, limit),
    ensures
        file_options_merged(file_options_default(), parts_bytes(file_options_parts(v)), depth, limit, false, None) == Ok::<FileOptionsView, ReadError>(v),
{
    lemma_file_options_parts_encodable(v);
    lemma_file_options_parts_bytes(v);
    lemma_file_options_read_all(v, depth, limit);
}

/// The `MessageOptions` message of `descriptor.proto`.
#[derive(Clone, Debug)]
pub struct MessageOptions {
    message_set_wire_format: Option<bool>,
    no_standard_descriptor_accessor: Option<bool>,
    deprecated: Option<bool>,
    map_entry: Option<bool>,
    uninterpreted_option: RepeatedField<UninterpretedOption>,
    unknown_fields: UnknownFieldSet,
}

/// The view of a `MessageOptions`: its fields, and its unknown fields.
pub struct MessageOptionsView {
    /// The `message_set_wire_format` field.
    pub message_set_wire_format: Option<bool>,
    /// The `no_standard_descriptor_accessor` field.
    pub no_standard_descriptor_accessor: Option<bool>,
    /// The `deprecated` field.
    pub deprecated: Option<bool>,
    /// The `map_entry` field.
    pub map_entry: Option<bool>,
    /// The `uninterpreted_option` field.
    pub uninterpreted_option: Seq<UninterpretedOptionView>,
    /// The unknown fields.
    pub unknown_fields: Seq<(u32, Seq<FieldValue>)>,
}

/// The view of a `MessageOptions` value.
pub closed spec fn message_options_view(m: MessageOptions) -> MessageOptionsView
{
    MessageOptionsView {
        message_set_wire_format: m.message_set_wire_format,
        no_standard_descriptor_accessor: m.no_standard_descriptor_accessor,
        deprecated: m.deprecated,
        map_entry: m.map_entry,
        uninterpreted_option: uninterpreted_option_seq_view(m.uninterpreted_option@),
        unknown_fields: m.unknown_fields@,
    }
}

/// The view of a `MessageOptions` with no field set.
pub open spec fn message_options_default() -> MessageOptionsView {
    MessageOptionsView {
        message_set_wire_format: None,
        no_standard_descriptor_accessor: None,
        deprecated: None,
        map_entry: None,
        uninterpreted_option: Seq::empty(),
        unknown_fields: Seq::empty(),
    }
}

impl View for MessageOptions {
    type V = MessageOptionsView;

    open spec fn view(&self) -> MessageOptionsView {
        message_options_view(*self)
    }
}

impl Default for MessageOptions {
    /// A message with no field set.
    fn default() -> (r: MessageOptions)
        ensures
            r@ == message_options_default(),
    {
        let r = MessageOptions {
            message_set_wire_format: None,
            no_standard_descriptor_accessor: None,
            deprecated: None,
            map_entry: None,
            uninterpreted_option: Vec::new(),
            unknown_fields: UnknownFieldSet::new(),
        };
        proof {
            assert(uninterpreted_option_seq_view(r.uninterpreted_option@) =~= Seq::empty());
            assert(r@ =~= message_options_default());
        }
        r
    }
}

impl MessageOptions {
    /// Gets the `message_set_wire_format` field, or its default, `false`.
    pub fn message_set_wire_format(&self) -> (r: bool)
        ensures
            r == self@.message_set_wire_format.unwrap_or(false),
    {
        match self.message_set_wire_format {
            Some(v) => v,
            None => false,
        }
    }

    /// Gets the `message_set_wire_format` field if it is set.
    pub fn message_set_wire_format_option(&self) -> (r: Option<&bool>)
        ensures
            opt_ref_view(r) == self@.message_set_wire_format,
    {
        self.message_set_wire_format.as_ref()
    }

    /// Gets the `message_set_wire_format` field for changing it, setting it to its type's default first if it
    /// is not set.
    pub fn message_set_wire_format_mut(&mut self) -> (r: &mut bool)
        ensures
            (*r)@ == old(self)@.message_set_wire_format.unwrap_or(false),
            final(self)@ == (MessageOptionsView { message_set_wire_format: Some((*final(r))@), ..old(self)@ }),
    {
        self.message_set_wire_format.get_or_insert(false)
    }

    /// Returns whether the `message_set_wire_format` field is set.
    pub fn has_message_set_wire_format(&self) -> (r: bool)
        ensures
            r == self@.message_set_wire_format is Some,
    {
        self.message_set_wire_format.is_some()
    }

    /// Sets the `message_set_wire_format` field.
    pub fn set_message_set_wire_format(&mut self, value: bool)
        ensures
            final(self)@ == (MessageOptionsView { message_set_wire_format: Some(value@), ..old(self)@ }),
    {
        self.message_set_wire_format = Some(value);
    }

    /// Takes the `message_set_wire_format` field out, leaving it unset.
    pub fn take_message_set_wire_format(&mut self) -> (r: Option<bool>)
        ensures
            opt_view(r) == old(self)@.message_set_wire_format,
            final(self)@ == (MessageOptionsView { message_set_wire_format: None, ..old(self)@ }),
    {
        self.message_set_wire_format.take()
    }

    /// Clears the `message_set_wire_format` field, leaving it unset.
    pub fn clear_message_set_wire_format(&mut self)
        ensures
            final(self)@ == (MessageOptionsView { message_set_wire_format: None, ..old(self)@ }),
    {
        self.message_set_wire_format = None;
    }

    /// Gets the `no_standard_descriptor_accessor` field, or its default, `false`.
    pub fn no_standard_descriptor_accessor(&self) -> (r: bool)
        ensures
            r == self@.no_standard_descriptor_accessor.unwrap_or(false),
    {
        match self.no_standard_descriptor_accessor {
            Some(v) => v,
            None => false,
        }
    }

    /// Gets the `no_standard_descriptor_accessor` field if it is set.
    pub fn no_standard_descriptor_accessor_option(&self) -> (r: Option<&bool>)
        ensures
            opt_ref_view(r) == self@.no_standard_descriptor_accessor,
    {
        self.no_standard_descriptor_accessor.as_ref()
    }

    /// Gets the `no_standard_descriptor_accessor` field for changing it, setting it to its type's default first if it
    /// is not set.
    pub fn no_standard_descriptor_accessor_mut(&mut self) -> (r: &mut bool)
        ensures
            (*r)@ == old(self)@.no_standard_descriptor_accessor.unwrap_or(false),
            final(self)@ == (MessageOptionsView { no_standard_descriptor_accessor: Some((*final(r))@), ..old(self)@ }),
    {
        self.no_standard_descriptor_accessor.get_or_insert(false)
    }

    /// Returns whether the `no_standard_descriptor_accessor` field is set.
    pub fn has_no_standard_descriptor_accessor(&self) -> (r: bool)
        ensures
            r == self@.no_standard_descriptor_accessor is Some,
    {
        self.no_standard_descriptor_accessor.is_some()
    }

    /// Sets the `no_standard_descriptor_accessor` field.
    pub fn set_no_standard_descriptor_accessor(&mut self, value: bool)
        ensures
            final(self)@ == (MessageOptionsView { no_standard_descriptor_accessor: Some(value@), ..old(self)@ }),
    {
        self.no_standard_descriptor_accessor = Some(value);
    }

    /// Takes the `no_standard_descriptor_accessor` field out, leaving it unset.
    pub fn take_no_standard_descriptor_accessor(&mut self) -> (r: Option<bool>)
        ensures
            opt_view(r) == old(self)@.no_standard_descriptor_accessor,
            final(self)@ == (MessageOptionsView { no_standard_descriptor_accessor: None, ..old(self)@ }),
    {
        self.no_standard_descriptor_accessor.take()
    }

    /// Clears the `no_standard_descriptor_accessor` field, leaving it unset.
    pub fn clear_no_standard_descriptor_accessor(&mut self)
        ensures
            final(self)@ == (MessageOptionsView { no_standard_descriptor_accessor: None, ..old(self)@ }),
    {
        self.no_standard_descriptor_accessor = None;
    }

    /// Gets the `deprecated` field, or its default, `false`.
    pub fn deprecated(&self) -> (r: bool)
        ensures
            r == self@.deprecated.unwrap_or(false),
    {
        match self.deprecated {
            Some(v) => v,
            None => false,
        }
    }

    /// Gets the `deprecated` field if it is set.
    pub fn deprecated_option(&self) -> (r: Option<&bool>)
        ensures
            opt_ref_view(r) == self@.deprecated,
    {
        self.deprecated.as_ref()
    }

    /// Gets the `deprecated` field for changing it, setting it to its type's default first if it
    /// is not set.
    pub fn deprecated_mut(&mut self) -> (r: &mut bool)
        ensures
            (*r)@ == old(self)@.deprecated.unwrap_or(false),
            final(self)@ == (MessageOptionsView { deprecated: Some((*final(r))@), ..old(self)@ }),
    {
        self.deprecated.get_or_insert(false)
    }

    /// Returns whether the `deprecated` field is set.
    pub fn has_deprecated(&self) -> (r: bool)
        ensures
            r == self@.deprecated is Some,
    {
        self.deprecated.is_some()
    }

    /// Sets the `deprecated` field.
    pub fn set_deprecated(&mut self, value: bool)
        ensures
            final(self)@ == (MessageOptionsView { deprecated: Some(value@), ..old(self)@ }),
    {
        self.deprecated = Some(value);
    }

    /// Takes the `deprecated` field out, leaving it unset.
    pub fn take_deprecated(&mut self) -> (r: Option<bool>)
        ensures
            opt_view(r) == old(self)@.deprecated,
            final(self)@ == (MessageOptionsView { deprecated: None, ..old(self)@ }),
    {
        self.deprecated.take()
    }

    /// Clears the `deprecated` field, leaving it unset.
    pub fn clear_deprecated(&mut self)
        ensures
            final(self)@ == (MessageOptionsView { deprecated: None, ..old(self)@ }),
    {
        self.deprecated = None;
    }

    /// Gets the `map_entry` field, or its default, `false`.
    pub fn map_entry(&self) -> (r: bool)
        ensures
            r == self@.map_entry.unwrap_or(false),
    {
        match self.map_entry {
            Some(v) => v,
            None => false,
        }
    }

    /// Gets the `map_entry` field if it is set.
    pub fn map_entry_option(&self) -> (r: Option<&bool>)
        ensures
            opt_ref_view(r) == self@.map_entry,
    {
        self.map_entry.as_ref()
    }

    /// Gets the `map_entry` field for changing it, setting it to its type's default first if it
    /// is not set.
    pub fn map_entry_mut(&mut self) -> (r: &mut bool)
        ensures
            (*r)@ == old(self)@.map_entry.unwrap_or(false),
            final(self)@ == (MessageOptionsView { map_entry: Some((*final(r))@), ..old(self)@ }),
    {
        self.map_entry.get_or_insert(false)
    }

    /// Returns whether the `map_entry` field is set.
    pub fn has_map_entry(&self) -> (r: bool)
        ensures
            r == self@.map_entry is Some,
    {
        self.map_entry.is_some()
    }

    /// Sets the `map_entry` field.
    pub fn set_map_entry(&mut self, value: bool)
        ensures
            final(self)@ == (MessageOptionsView { map_entry: Some(value@), ..old(self)@ }),
    {
        self.map_entry = Some(value);
    }

    /// Takes the `map_entry` field out, leaving it unset.
    pub fn take_map_entry(&mut self) -> (r: Option<bool>)
        ensures
            opt_view(r) == old(self)@.map_entry,
            final(self)@ == (MessageOptionsView { map_entry: None, ..old(self)@ }),
    {
        self.map_entry.take()
    }

    /// Clears the `map_entry` field, leaving it unset.
    pub fn clear_map_entry(&mut self)
        ensures
            final(self)@ == (MessageOptionsView { map_entry: None, ..old(self)@ }),
    {
        self.map_entry = None;
    }

    /// Gets the values of the `uninterpreted_option` field.
    pub fn uninterpreted_option(&self) -> (r: &RepeatedField<UninterpretedOption>)
        ensures
            uninterpreted_option_seq_view(r@) == self@.uninterpreted_option,
    {
        &self.uninterpreted_option
    }

    /// Gets the values of the `uninterpreted_option` field for changing them.
    pub fn uninterpreted_option_mut(&mut self) -> (r: &mut RepeatedField<UninterpretedOption>)
        ensures
            uninterpreted_option_seq_view((*r)@) == old(self)@.uninterpreted_option,
            final(self)@ == (MessageOptionsView { uninterpreted_option: uninterpreted_option_seq_view((*final(r))@), ..old(self)@ }),
    {
        &mut self.uninterpreted_option
    }
}

/// The parts a `MessageOptions` is written as: its fields that are set, in field number order, then its
/// unknown fields.
#[verifier::opaque]
pub open spec fn message_options_parts(v: MessageOptionsView) -> Seq<(bool, Seq<u8>)>
{
    opt_field_parts::<raw::Bool>(1u32, v.message_set_wire_format) + (opt_field_parts::<raw::Bool>(2u32, v.no_standard_descriptor_accessor) + (opt_field_parts::<raw::Bool>(3u32, v.deprecated) + (opt_field_parts::<raw::Bool>(7u32, v.map_entry) + (uninterpreted_option_seq_parts(999u32, v.uninterpreted_option) + (set_parts(v.unknown_fields))))))
}

/// What reading the field with tag value `t` from the front of `rest` into `v` gives: the
/// number of bytes read and the message after, or the error.
pub open spec fn message_options_field_read(v: MessageOptionsView, t: u32, rest: Seq<u8>, depth: nat, limit: nat, skip: bool, eg: Option<Tag>) -> ReadResult<(int, MessageOptionsView)>
{
    if t == 8u32 {
        match <raw::Bool as Value>::decoding(rest) { Ok((m, x)) => Ok((m, MessageOptionsView { message_set_wire_format: Some(x), ..v })), Err(e) => Err(e) }
    } else if t == 16u32 {
        match <raw::Bool as Value>::decoding(rest) { Ok((m, x)) => Ok((m, MessageOptionsView { no_standard_descriptor_accessor: Some(x), ..v })), Err(e) => Err(e) }
    } else if t == 24u32 {
        match <raw::Bool as Value>::decoding(rest) { Ok((m, x)) => Ok((m, MessageOptionsView { deprecated: Some(x), ..v })), Err(e) => Err(e) }
    } else if t == 56u32 {
        match <raw::Bool as Value>::decoding(rest) { Ok((m, x)) => Ok((m, MessageOptionsView { map_entry: Some(x), ..v })), Err(e) => Err(e) }
    } else if t == 7994u32 {
        match length_delimited_read(rest) { Err(e) => Err(e), Ok((m, b)) => if depth >= limit { Err(ReadError::RecursionLimitExceeded) } else { match uninterpreted_option_merged(uninterpreted_option_default(), b, depth + 1, limit, skip, eg) { Ok(y) => Ok((m, MessageOptionsView { uninterpreted_option: v.uninterpreted_option.push(y), ..v })), Err(e) => Err(e) } } }
    } else {
        match unknown_field_read(v.unknown_fields, t, rest, depth, limit, skip, eg) {
            Ok((m, u)) => Ok((m, MessageOptionsView { unknown_fields: u, ..v })),
            Err(e) => Err(e),
        }
    }
}

/// What reading all of `s` into `v` as `MessageOptions` fields gives: the message after, or the error.
/// `depth` and `limit` are the reader's depth and recursion limit, `skip` whether it skips
/// unknown fields, and `eg` the end tag of the group it is in.
pub open spec fn message_options_merged(v: MessageOptionsView, s: Seq<u8>, depth: nat, limit: nat, skip: bool, eg: Option<Tag>) -> ReadResult<MessageOptionsView>
    decreases s.len(),
{
    if s.len() == 0 {
        Ok(v)
    } else {
        match varint_read(s) {
            Err(e) => Err(e),
            Ok((n, w)) => if n < 1 || n > s.len() {
                Err(eof())
            } else {
                match message_options_field_read(v, w as u32, s.skip(n), depth, limit, skip, eg) {
                    Err(e) => Err(e),
                    Ok((m, v2)) => if m < 0 || n + m > s.len() {
                        Err(eof())
                    } else {
                        message_options_merged(v2, s.skip(n + m), depth, limit, skip, eg)
                    },
                }
            },
        }
    }
}

/// Reads a `MessageOptions` from the reader as a length delimited value, merging it into `this`, one
/// level deeper.
fn merge_message_options_delimited(this: &mut MessageOptions, input: &mut CodedReader) -> (r: ReadResult<()>)
    ensures
        match length_delimited_read(old(input).available()) {
            Err(e) => r == Err::<(), ReadError>(e) && same_config(*old(input), *final(input)),
            Ok((m, b)) => if old(input).depth() >= old(input).recursion_limit() {
                r == Err::<(), ReadError>(ReadError::RecursionLimitExceeded) && same_config(*old(input), *final(input))
            } else {
                match message_options_merged(old(this)@, b, old(input).depth() + 1, old(input).recursion_limit(), skips(*old(input)), old(input).end_group_view()) {
                    Ok(y) => r is Ok && final(this)@ == y && final(input).position() == old(input).position() + m
                        && same_state(*old(input), *final(input)),
                    Err(e) => r == Err::<(), ReadError>(e) && same_config(*old(input), *final(input)),
                }
            },
        },
{
    let rem0 = input.remaining();
    let ghost s = input.available();
    let ghost start = *input;
    let length = match input.read_length() {
        Ok(l) => l,
        Err(e) => return Err(e),
    };
    let rem1 = input.remaining();
    let ghost n0 = input.position() - start.position();
    proof {
        lemma_varint_read_len(s);
        assert(input.available() =~= s.skip(n0));
    }
    let previous = match input.push_length(length) {
        Ok(p) => p,
        Err(e) => return Err(e),
    };
    let rem2 = input.remaining();
    let ghost b = s.subrange(n0, n0 + length@);
    proof {
        assert(input.available() =~= b);
        assert(length_delimited_read(s) == Ok::<(int, Seq<u8>), ReadError>((n0 + length@, b)));
    }
    let ghost pushed = *input;
    match input.increment_recursion_count() {
        Ok(()) => {},
        Err(e) => {
            input.pop_length(previous);
            return Err(e);
        },
    }
    let r = this.merge_from(input);
    let rem3 = input.remaining();
    input.decrement_recursion_count();
    input.pop_length(previous);
    r
}

/// The parts an optional `MessageOptions` field with field number `num` is written as: nothing where it
/// is not set, else its tag, its length and its parts.
pub open spec fn message_options_opt_parts(num: u32, o: Option<MessageOptionsView>) -> Seq<(bool, Seq<u8>)> {
    match o {
        Some(y) => entry_parts(num, message_options_parts(y)),
        None => Seq::empty(),
    }
}

/// Adds the size of an optional `MessageOptions` field with field number `num` to the builder.
fn message_options_opt_size(o: &Option<MessageOptions>, b: LengthBuilder, num: FieldNumber) -> (r: Option<LengthBuilder>)
    ensures
        size_added(b@ as int, parts_encodable(message_options_opt_parts(num@, opt_view(*o))), parts_bytes(message_options_opt_parts(num@, opt_view(*o))).len() as int, r),
{
    match o {
        Some(y) => {
            let len = y.calculate_size();
            add_entry_size(b, num, len, Ghost(message_options_parts(y@)))
        },
        None => {
            proof {
                assert(parts_encodable(Seq::<(bool, Seq<u8>)>::empty()));
                assert(parts_bytes(Seq::<(bool, Seq<u8>)>::empty()).len() == 0);
            }
            Some(b)
        },
    }
}

/// Writes an optional `MessageOptions` field with field number `num`: nothing where it is not set, else
/// its tag, its length and its fields.
fn write_message_options_opt(o: &Option<MessageOptions>, output: &mut CodedWriter, num: FieldNumber) -> (r: WriteResult)
    ensures
        (final(output).written(), r) == parts_written(old(output).written(), old(output).capacity(), message_options_opt_parts(num@, opt_view(*o))),
        final(output).capacity() == old(output).capacity(),
        (*final(final(output).target()))@ == (*final(old(output).target()))@,
{
    match o {
        Some(y) => {
            let ghost p = message_options_parts(y@);
            let ghost head = entry_head(num@, p);
            let ghost w0 = output.written();
            let ghost cap = output.capacity();
            proof {
                lemma_parts_written_append(w0, cap, head, p);
                reveal_with_fuel(parts_written, 3);
                assert(head.drop_first().drop_first() =~= Seq::<(bool, Seq<u8>)>::empty());
                lemma_varint_roundtrip(tag_value(num@, WireType::LengthDelimited) as u64);
            }
            match output.write_tag(Tag::new(num, WireType::LengthDelimited)) {
                Ok(()) => {},
                Err(e) => return Err(e),
            }
            let len = match y.calculate_size() {
                Some(len) => len,
                None => return Err(WriteError::ValueTooLarge),
            };
            proof {
                lemma_varint_roundtrip(len@ as u64);
            }
            match output.write_length(len) {
                Ok(()) => {},
                Err(e) => return Err(e),
            }
            y.write_to(output)
        },
        None => Ok(()),
    }
}

impl MessageOptions {
    /// Gets the unknown fields of the message.
    pub fn unknown_fields(&self) -> (r: &UnknownFieldSet)
        ensures
            r@ == self@.unknown_fields,
    {
        &self.unknown_fields
    }

    /// Gets the unknown fields of the message for changing them.
    pub fn unknown_fields_mut(&mut self) -> (r: &mut UnknownFieldSet)
        ensures
            (*r)@ == old(self)@.unknown_fields,
            final(self)@ == (MessageOptionsView { unknown_fields: (*final(r))@, ..old(self)@ }),
    {
        &mut self.unknown_fields
    }

    /// Returns whether the message is initialized: whether all its required fields are set.
    pub fn is_initialized(&self) -> (r: bool)
        ensures
            r,
    {
        if !crate::is_initialized(&self.uninterpreted_option) {
            return false;
        }
        true
    }

    /// Calculates the size of the message as it is written: `None` if a part cannot be
    /// written or the size does not fit in a length.
    #[verifier::spinoff_prover]
    pub fn calculate_size(&self) -> (r: Option<Length>)
        ensures
            opt_length(r) == parts_size(message_options_parts(self@)),
    {
        let ghost v = self@;
        let ghost all = message_options_parts(v);
        let b0 = LengthBuilder::new();
        let ghost d0 = Seq::<(bool, Seq<u8>)>::empty();
        proof {
            reveal(message_options_parts);
            assert(all =~= d0 + all);
        }
        let ghost p1 = opt_field_parts::<raw::Bool>(1u32, v.message_set_wire_format);
        let ghost rest1 = opt_field_parts::<raw::Bool>(2u32, v.no_standard_descriptor_accessor) + (opt_field_parts::<raw::Bool>(3u32, v.deprecated) + (opt_field_parts::<raw::Bool>(7u32, v.map_entry) + (uninterpreted_option_seq_parts(999u32, v.uninterpreted_option) + (set_parts(v.unknown_fields)))));
        proof {
            assert(self@.message_set_wire_format == opt_inner_view::<raw::Bool>(self.message_set_wire_format));
            assert(all == d0 + (p1 + rest1));
            assert(d0 + (p1 + rest1) =~= d0 + p1 + rest1);
        }
        let r1 = add_opt_field::<raw::Bool>(b0, FieldNumber::new_unchecked(1), &self.message_set_wire_format);
        proof {
            lemma_size_chain(0, d0, p1, Some(b0), r1);
            if r1 is None {
                lemma_size_chain(0, d0 + p1, rest1, r1, r1);
            }
        }
        let b1 = match r1 {
            Some(b) => b,
            None => return None,
        };
        let ghost d1 = d0 + p1;
        let ghost p2 = opt_field_parts::<raw::Bool>(2u32, v.no_standard_descriptor_accessor);
        let ghost rest2 = opt_field_parts::<raw::Bool>(3u32, v.deprecated) + (opt_field_parts::<raw::Bool>(7u32, v.map_entry) + (uninterpreted_option_seq_parts(999u32, v.uninterpreted_option) + (set_parts(v.unknown_fields))));
        proof {
            assert(self@.no_standard_descriptor_accessor == opt_inner_view::<raw::Bool>(self.no_standard_descriptor_accessor));
            assert(all == d1 + (p2 + rest2));
            assert(d1 + (p2 + rest2) =~= d1 + p2 + rest2);
        }
        let r2 = add_opt_field::<raw::Bool>(b1, FieldNumber::new_unchecked(2), &self.no_standard_descriptor_accessor);
        proof {
            lemma_size_chain(0, d1, p2, Some(b1), r2);
            if r2 is None {
                lemma_size_chain(0, d1 + p2, rest2, r2, r2);
            }
        }
        let b2 = match r2 {
            Some(b) => b,
            None => return None,
        };
        let ghost d2 = d1 + p2;
        let ghost p3 = opt_field_parts::<raw::Bool>(3u32, v.deprecated);
        let ghost rest3 = opt_field_parts::<raw::Bool>(7u32, v.map_entry) + (uninterpreted_option_seq_parts(999u32, v.uninterpreted_option) + (set_parts(v.unknown_fields)));
        proof {
            assert(self@.deprecated == opt_inner_view::<raw::Bool>(self.deprecated));
            assert(all == d2 + (p3 + rest3));
            assert(d2 + (p3 + rest3) =~= d2 + p3 + rest3);
        }
        let r3 = add_opt_field::<raw::Bool>(b2, FieldNumber::new_unchecked(3), &self.deprecated);
        proof {
            lemma_size_chain(0, d2, p3, Some(b2), r3);
            if r3 is None {
                lemma_size_chain(0, d2 + p3, rest3, r3, r3);
            }
        }
        let b3 = match r3 {
            Some(b) => b,
            None => return None,
        };
        let ghost d3 = d2 + p3;
        let ghost p4 = opt_field_parts::<raw::Bool>(7u32, v.map_entry);
        let ghost rest4 = uninterpreted_option_seq_parts(999u32, v.uninterpreted_option) + (set_parts(v.unknown_fields));
        proof {
            assert(self@.map_entry == opt_inner_view::<raw::Bool>(self.map_entry));
            assert(all == d3 + (p4 + rest4));
            assert(d3 + (p4 + rest4) =~= d3 + p4 + rest4);
        }
        let r4 = add_opt_field::<raw::Bool>(b3, FieldNumber::new_unchecked(7), &self.map_entry);
        proof {
            lemma_size_chain(0, d3, p4, Some(b3), r4);
            if r4 is None {
                lemma_size_chain(0, d3 + p4, rest4, r4, r4);
            }
        }
        let b4 = match r4 {
            Some(b) => b,
            None => return None,
        };
        let ghost d4 = d3 + p4;
        let ghost p5 = uninterpreted_option_seq_parts(999u32, v.uninterpreted_option);
        let ghost rest5 = set_parts(v.unknown_fields);
        proof {
            assert(all == d4 + (p5 + rest5));
            assert(d4 + (p5 + rest5) =~= d4 + p5 + rest5);
        }
        let r5 = uninterpreted_option_values_size(&self.uninterpreted_option, b4, FieldNumber::new_unchecked(999));
        proof {
            lemma_size_chain(0, d4, p5, Some(b4), r5);
            if r5 is None {
                lemma_size_chain(0, d4 + p5, rest5, r5, r5);
            }
        }
        let b5 = match r5 {
            Some(b) => b,
            None => return None,
        };
        let ghost d5 = d4 + p5;
        let ghost p6 = set_parts(v.unknown_fields);
        let ghost rest6 = Seq::<(bool, Seq<u8>)>::empty();
        proof {
            assert(all == d5 + p6);
            assert(p6 + rest6 =~= p6);
            assert(d5 + (p6 + rest6) =~= d5 + p6 + rest6);
        }
        let r6 = self.unknown_fields.calculate_size(b5);
        proof {
            lemma_size_chain(0, d5, p6, Some(b5), r6);
            if r6 is None {
                lemma_size_chain(0, d5 + p6, rest6, r6, r6);
            }
        }
        let b6 = match r6 {
            Some(b) => b,
            None => return None,
        };
        let ghost d6 = d5 + p6;
        Some(b6.build())
    }

    /// Writes the message to the writer: its fields that are set, in field number order, then
    /// its unknown fields.
    #[verifier::spinoff_prover]
    pub fn write_to(&self, output: &mut CodedWriter) -> (r: WriteResult)
        ensures
            (final(output).written(), r) == parts_written(old(output).written(), old(output).capacity(), message_options_parts(self@)),
            final(output).capacity() == old(output).capacity(),
            (*final(final(output).target()))@ == (*final(old(output).target()))@,
    {
        let ghost v = self@;
        let ghost all = message_options_parts(v);
        let ghost start = output.written();
        let ghost cap = output.capacity();
        let ghost d0 = Seq::<(bool, Seq<u8>)>::empty();
        proof {
            reveal(message_options_parts);
            assert(all =~= d0 + all);
        }
        let ghost p1 = opt_field_parts::<raw::Bool>(1u32, v.message_set_wire_format);
        let ghost rest1 = opt_field_parts::<raw::Bool>(2u32, v.no_standard_descriptor_accessor) + (opt_field_parts::<raw::Bool>(3u32, v.deprecated) + (opt_field_parts::<raw::Bool>(7u32, v.map_entry) + (uninterpreted_option_seq_parts(999u32, v.uninterpreted_option) + (set_parts(v.unknown_fields)))));
        proof {
            assert(self@.message_set_wire_format == opt_inner_view::<raw::Bool>(self.message_set_wire_format));
            assert(all == d0 + (p1 + rest1));
            assert(d0 + (p1 + rest1) =~= d0 + p1 + rest1);
            lemma_parts_written_append(start, cap, d0, p1);
            lemma_parts_written_append(start, cap, d0 + p1, rest1);
        }
        match write_opt_field::<raw::Bool>(output, FieldNumber::new_unchecked(1), &self.message_set_wire_format) {
            Ok(()) => {},
            Err(e) => return Err(e),
        }
        let ghost d1 = d0 + p1;
        let ghost p2 = opt_field_parts::<raw::Bool>(2u32, v.no_standard_descriptor_accessor);
        let ghost rest2 = opt_field_parts::<raw::Bool>(3u32, v.deprecated) + (opt_field_parts::<raw::Bool>(7u32, v.map_entry) + (uninterpreted_option_seq_parts(999u32, v.uninterpreted_option) + (set_parts(v.unknown_fields))));
        proof {
            assert(self@.no_standard_descriptor_accessor == opt_inner_view::<raw::Bool>(self.no_standard_descriptor_accessor));
            assert(all == d1 + (p2 + rest2));
            assert(d1 + (p2 + rest2) =~= d1 + p2 + rest2);
            lemma_parts_written_append(start, cap, d1, p2);
            lemma_parts_written_append(start, cap, d1 + p2, rest2);
        }
        match write_opt_field::<raw::Bool>(output, FieldNumber::new_unchecked(2), &self.no_standard_descriptor_accessor) {
            Ok(()) => {},
            Err(e) => return Err(e),
        }
        let ghost d2 = d1 + p2;
        let ghost p3 = opt_field_parts::<raw::Bool>(3u32, v.deprecated);
        let ghost rest3 = opt_field_parts::<raw::Bool>(7u32, v.map_entry) + (uninterpreted_option_seq_parts(999u32, v.uninterpreted_option) + (set_parts(v.unknown_fields)));
        proof {
            assert(self@.deprecated == opt_inner_view::<raw::Bool>(self.deprecated));
            assert(all == d2 + (p3 + rest3));
            assert(d2 + (p3 + rest3) =~= d2 + p3 + rest3);
            lemma_parts_written_append(start, cap, d2, p3);
            lemma_parts_written_append(start, cap, d2 + p3, rest3);
        }
        match write_opt_field::<raw::Bool>(output, FieldNumber::new_unchecked(3), &self.deprecated) {
            Ok(()) => {},
            Err(e) => return Err(e),
        }
        let ghost d3 = d2 + p3;
        let ghost p4 = opt_field_parts::<raw::Bool>(7u32, v.map_entry);
        let ghost rest4 = uninterpreted_option_seq_parts(999u32, v.uninterpreted_option) + (set_parts(v.unknown_fields));
        proof {
            assert(self@.map_entry == opt_inner_view::<raw::Bool>(self.map_entry));
            assert(all == d3 + (p4 + rest4));
            assert(d3 + (p4 + rest4) =~= d3 + p4 + rest4);
            lemma_parts_written_append(start, cap, d3, p4);
            lemma_parts_written_append(start, cap, d3 + p4, rest4);
        }
        match write_opt_field::<raw::Bool>(output, FieldNumber::new_unchecked(7), &self.map_entry) {
            Ok(()) => {},
            Err(e) => return Err(e),
        }
        let ghost d4 = d3 + p4;
        let ghost p5 = uninterpreted_option_seq_parts(999u32, v.uninterpreted_option);
        let ghost rest5 = set_parts(v.unknown_fields);
        proof {
            assert(all == d4 + (p5 + rest5));
            assert(d4 + (p5 + rest5) =~= d4 + p5 + rest5);
            lemma_parts_written_append(start, cap, d4, p5);
            lemma_parts_written_append(start, cap, d4 + p5, rest5);
        }
        match write_uninterpreted_option_values(&self.uninterpreted_option, output, FieldNumber::new_unchecked(999)) {
            Ok(()) => {},
            Err(e) => return Err(e),
        }
        let ghost d5 = d4 + p5;
        let ghost p6 = set_parts(v.unknown_fields);
        let ghost rest6 = Seq::<(bool, Seq<u8>)>::empty();
        proof {
            assert(all == d5 + p6);
            assert(p6 + rest6 =~= p6);
            assert(d5 + (p6 + rest6) =~= d5 + p6 + rest6);
            lemma_parts_written_append(start, cap, d5, p6);
            lemma_parts_written_append(start, cap, d5 + p6, rest6);
        }
        match self.unknown_fields.write_to(output) {
            Ok(()) => {},
            Err(e) => return Err(e),
        }
        let ghost d6 = d5 + p6;
        proof {
            assert(all =~= d6 + Seq::<(bool, Seq<u8>)>::empty());
            assert(all == d6);
            lemma_ok_unit(parts_written(start, cap, all).1);
        }
        Ok(())
    }

    /// Reads the value of the field whose tag value `t` was just read into the message.
    #[verifier::spinoff_prover]
    fn merge_field(&mut self, t: u32, input: &mut CodedReader) -> (r: ReadResult<()>)
        ensures
            match message_options_field_read(old(self)@, t, old(input).available(), old(input).depth(), old(input).recursion_limit(), skips(*old(input)), old(input).end_group_view()) {
                Ok((m, v2)) => r is Ok && final(self)@ == v2 && m >= 0 && final(input).position()
                    == old(input).position() + m && same_state(*old(input), *final(input)),
                Err(e) => r == Err::<(), ReadError>(e) && same_config(*old(input), *final(input)),
            },
    {
        let rem0 = input.remaining();
        let ghost rest = input.available();
        if t == 8u32 {
            proof {
                <raw::Bool as Value>::lemma_decoding_len(rest);
            }
            input.set_last_tag(Some(Tag::new(FieldNumber::new_unchecked(1), WireType::Varint)));
            match <raw::Bool as Value>::merge_from(self.message_set_wire_format.get_or_insert(false), input) {
                Ok(()) => {},
                Err(e) => return Err(e),
            }
        } else if t == 16u32 {
            proof {
                <raw::Bool as Value>::lemma_decoding_len(rest);
            }
            input.set_last_tag(Some(Tag::new(FieldNumber::new_unchecked(2), WireType::Varint)));
            match <raw::Bool as Value>::merge_from(self.no_standard_descriptor_accessor.get_or_insert(false), input) {
                Ok(()) => {},
                Err(e) => return Err(e),
            }
        } else if t == 24u32 {
            proof {
                <raw::Bool as Value>::lemma_decoding_len(rest);
            }
            input.set_last_tag(Some(Tag::new(FieldNumber::new_unchecked(3), WireType::Varint)));
            match <raw::Bool as Value>::merge_from(self.deprecated.get_or_insert(false), input) {
                Ok(()) => {},
                Err(e) => return Err(e),
            }
        } else if t == 56u32 {
            proof {
                <raw::Bool as Value>::lemma_decoding_len(rest);
            }
            input.set_last_tag(Some(Tag::new(FieldNumber::new_unchecked(7), WireType::Varint)));
            match <raw::Bool as Value>::merge_from(self.map_entry.get_or_insert(false), input) {
                Ok(()) => {},
                Err(e) => return Err(e),
            }
        } else if t == 7994u32 {
            proof {
                lemma_length_delimited_read_len(rest);
            }
            input.set_last_tag(Some(Tag::new(FieldNumber::new_unchecked(999), WireType::LengthDelimited)));
            let mut y = UninterpretedOption::default();
            match merge_uninterpreted_option_delimited(&mut y, input) {
                Ok(()) => {},
                Err(e) => return Err(e),
            }
            let ghost old_values = self.uninterpreted_option@;
            self.uninterpreted_option.push(y);
            proof {
                assert(self.uninterpreted_option@.subrange(0, self.uninterpreted_option@.len() - 1) =~= old_values);
            }
        } else {
            let tag = match Tag::try_from(t) {
                Ok(tag) => tag,
                Err(_) => return Err(ReadError::InvalidTag(t)),
            };
            input.set_last_tag(Some(tag));
            match self.unknown_fields.try_add_field_from(input) {
                Ok(TryRead::Consumed) => {},
                Ok(TryRead::Yielded) => match input.skip() {
                    Ok(()) => {},
                    Err(e) => return Err(e),
                },
                Err(e) => return Err(e),
            }
        }
        let rem1 = input.remaining();
        Ok(())
    }

    /// Merges the message with fields read from the reader, up to its limit. Scalar fields
    /// read replace those set, message fields are merged, repeated fields are added to,
    /// and unknown fields are stored or skipped as the reader says. On an error the message
    /// may hold some of the fields read before it.
    #[verifier::spinoff_prover]
    #[verifier::rlimit(50)]
    pub fn merge_from(&mut self, input: &mut CodedReader) -> (r: ReadResult<()>)
        ensures
            merge_outcome(message_options_merged(old(self)@, old(input).available(), old(input).depth(), old(input).recursion_limit(), skips(*old(input)), old(input).end_group_view()), final(self)@, *old(input), *final(input), r),
    {
        let rem0 = input.remaining();
        let ghost start = *input;
        let ghost total = message_options_merged(self@, input.available(), input.depth(), input.recursion_limit(), skips(*input), input.end_group_view());
        loop
            invariant
                start == *old(input),
                same_state(start, *input),
                0 <= start.position() <= input.position(),
                input.limit_end() <= input.input().len(),
                total == message_options_merged(old(self)@, start.available(), start.depth(), start.recursion_limit(), skips(start), start.end_group_view()),
                total == message_options_merged(self@, input.available(), start.depth(), start.recursion_limit(), skips(start), start.end_group_view()),
            decreases input.available().len(),
        {
            let ghost s = input.available();
            let ghost before = *input;
            let ghost v = self@;
            let t = match input.read_field() {
                Ok(Some(t)) => t,
                Ok(None) => return Ok(()),
                Err(e) => return Err(e),
            };
            let rem1 = input.remaining();
            let ghost n = input.position() - before.position();
            proof {
                lemma_varint_read_len(s);
                assert(input.available() =~= s.skip(n));
            }
            let ghost mid = *input;
            match self.merge_field(t, input) {
                Ok(()) => {},
                Err(e) => return Err(e),
            }
            let rem2 = input.remaining();
            proof {
                let m = input.position() - mid.position();
                assert(input.available() =~= s.skip(n + m));
            }
        }
    }
}

impl crate::Message for MessageOptions {
    open spec fn merged(v: MessageOptionsView, s: Seq<u8>, depth: nat, limit: nat, skip: bool, eg: Option<Tag>) -> ReadResult<MessageOptionsView> {
        message_options_merged(v, s, depth, limit, skip, eg)
    }

    open spec fn parts(v: MessageOptionsView) -> Seq<(bool, Seq<u8>)> {
        message_options_parts(v)
    }

    open spec fn initialized(v: MessageOptionsView) -> bool {
        true
    }

    open spec fn unknown_fields_of(v: MessageOptionsView) -> Seq<(u32, Seq<FieldValue>)> {
        v.unknown_fields
    }

    open spec fn with_unknown_fields(v: MessageOptionsView, u: Seq<(u32, Seq<FieldValue>)>) -> MessageOptionsView {
        MessageOptionsView { unknown_fields: u, ..v }
    }

    fn merge_from(&mut self, input: &mut CodedReader) -> (r: ReadResult<()>) {
        MessageOptions::merge_from(self, input)
    }

    fn calculate_size(&self) -> (r: Option<Length>) {
        MessageOptions::calculate_size(self)
    }

    fn write_to(&self, output: &mut CodedWriter) -> (r: WriteResult) {
        MessageOptions::write_to(self, output)
    }

    fn is_initialized(&self) -> (r: bool) {
        MessageOptions::is_initialized(self)
    }

    fn unknown_fields(&self) -> (r: &UnknownFieldSet) {
        MessageOptions::unknown_fields(self)
    }

    fn unknown_fields_mut(&mut self) -> (r: &mut UnknownFieldSet) {
        MessageOptions::unknown_fields_mut(self)
    }
}

impl DebugMessage for MessageOptions {
    open spec fn spec_full_name() -> Seq<char> {
        "google.protobuf.MessageOptions"@
    }

    open spec fn spec_name() -> Seq<char> {
        "MessageOptions"@
    }

    fn full_name() -> (r: &'static str) {
        "google.protobuf.MessageOptions"
    }

    fn name() -> (r: &'static str) {
        "MessageOptions"
    }
}

/// Whether `t` is the tag of a field a `MessageOptions` reads.
pub open spec fn message_options_known_tag(t: u32) -> bool {
    t == 8u32 || t == 16u32 || t == 24u32 || t == 56u32 || t == 7994u32
}

/// Whether a `MessageOptions` is read back as it is written, at nesting depth `depth` of a reader with
/// recursion limit `limit`: its messages are read back as written one level deeper, within
/// the limit; and its unknown fields are read back as written, none with the tag of one of
/// its fields.
pub open spec fn message_options_roundtrips(v: MessageOptionsView, depth: nat, limit: nat) -> bool
{
    &&& (v.uninterpreted_option.len() > 0 ==> depth < limit)
    &&& forall|i: int| 0 <= i < v.uninterpreted_option.len() ==> uninterpreted_option_roundtrips(#[trigger] v.uninterpreted_option[i], depth + 1, limit)
    &&& set_readable(v.unknown_fields)
    &&& forall|k: int| 0 <= k < set_pairs(v.unknown_fields).len() ==> !message_options_known_tag(tag_value(
        #[trigger] set_pairs(v.unknown_fields)[k].0,
        field_value_wire_type(set_pairs(v.unknown_fields)[k].1),
    ))
}

/// Reading a `MessageOptions` field whose tag is read from the front of `s` and whose value is read after
/// it continues with the rest of `s`.
proof fn lemma_message_options_step(v: MessageOptionsView, s: Seq<u8>, k: int, t: u32, m: int, v2: MessageOptionsView, depth: nat, limit: nat)
    requires
        varint_read(s) == Ok::<(int, u64), ReadError>((k, t as u64)),
        1 <= k <= s.len(),
        message_options_field_read(v, t, s.skip(k), depth, limit, false, None) == Ok::<(int, MessageOptionsView), ReadError>((m, v2)),
        0 <= m,
        k + m <= s.len(),
    ensures
        message_options_merged(v, s, depth, limit, false, None) == message_options_merged(v2, s.skip(k + m), depth, limit, false, None),
{
    assert((t as u64) as u32 == t);
}

/// Reading the entries of `UninterpretedOption` values written as field `uninterpreted_option` of a `MessageOptions` adds the values.
#[verifier::spinoff_prover]
#[verifier::rlimit(60)]
proof fn lemma_message_options_read_uninterpreted_option(v: MessageOptionsView, ys: Seq<UninterpretedOptionView>, rest: Seq<u8>, depth: nat, limit: nat)
    requires
        parts_encodable(uninterpreted_option_seq_parts(999u32, ys)),
        ys.len() > 0 ==> depth < limit,
        forall|i: int| 0 <= i < ys.len() ==> uninterpreted_option_roundtrips(#[trigger] ys[i], depth + 1, limit),
    ensures
        message_options_merged(v, parts_bytes(uninterpreted_option_seq_parts(999u32, ys)) + rest, depth, limit, false, None) == message_options_merged(
            MessageOptionsView { uninterpreted_option: v.uninterpreted_option + ys, ..v },
            rest,
            depth, limit, false, None,
        ),
    decreases ys.len(),
{
    if ys.len() == 0 {
        assert(parts_bytes(uninterpreted_option_seq_parts(999u32, ys)) + rest =~= rest);
        assert(v.uninterpreted_option + ys =~= v.uninterpreted_option);
    } else {
        let y = ys[0];
        let tail = ys.drop_first();
        assert forall|i: int| 0 <= i < tail.len() implies uninterpreted_option_roundtrips(#[trigger] tail[i], depth + 1, limit) by {
            assert(tail[i] == ys[i + 1]);
        }
        lemma_uninterpreted_option_seq_parts_front(999u32, ys);
        let ep = entry_parts(999u32, uninterpreted_option_parts(y));
        lemma_parts_encodable_two(ep, uninterpreted_option_seq_parts(999u32, tail));
        lemma_parts_bytes_append(ep, uninterpreted_option_seq_parts(999u32, tail));
        assert(ep[1].0);
        let after = parts_bytes(uninterpreted_option_seq_parts(999u32, tail)) + rest;
        let s = parts_bytes(uninterpreted_option_seq_parts(999u32, ys)) + rest;
        assert(s =~= parts_bytes(ep) + after);
        lemma_entry_bytes_read(999u32, uninterpreted_option_parts(y), after);
        lemma_tag_value(999u32, WireType::LengthDelimited);
        lemma_uninterpreted_option_roundtrip(y, depth + 1, limit);
        let hl = parts_bytes(ep).len() as int;
        let k = varint_len(7994u64) as int;
        let v2 = MessageOptionsView { uninterpreted_option: v.uninterpreted_option.push(y), ..v };
        lemma_message_options_step(v, s, k, 7994u32, hl - k, v2, depth, limit);
        lemma_message_options_read_uninterpreted_option(v2, tail, rest, depth, limit);
        assert(v.uninterpreted_option.push(y) + tail =~= v.uninterpreted_option + ys);
    }
}

/// Reading the field `message_set_wire_format` of a `MessageOptions` written from `o` sets it to `o`, whatever it held; nothing
/// is written, and nothing changes, for `None`.
proof fn lemma_message_options_read_message_set_wire_format(d: MessageOptionsView, o: Option<bool>, rest: Seq<u8>, depth: nat, limit: nat)
    requires
        parts_encodable(opt_field_parts::<raw::Bool>(1u32, o)),
    ensures
        message_options_merged(d, parts_bytes(opt_field_parts::<raw::Bool>(1u32, o)) + rest, depth, limit, false, None) == message_options_merged(if o is Some { MessageOptionsView { message_set_wire_format: o, ..d } } else { d }, rest, depth, limit, false, None),
{
    match o {
        None => {
            assert(parts_bytes(opt_field_parts::<raw::Bool>(1u32, o)) + rest =~= rest);
        },
        Some(x) => {
            let p = field_parts::<raw::Bool>(1u32, x);
            assert(p[1].0);
            let s = parts_bytes(p) + rest;
            lemma_field_bytes_read::<raw::Bool>(1u32, x, rest);
            lemma_tag_value(1u32, WireType::Varint);
            let hl = parts_bytes(p).len() as int;
            let k = varint_len(8u64) as int;
            let v2 = MessageOptionsView { message_set_wire_format: Some(x), ..d };
            lemma_message_options_step(d, s, k, 8u32, hl - k, v2, depth, limit);
        },
    }
}

/// Reading the field `no_standard_descriptor_accessor` of a `MessageOptions` written from `o` sets it to `o`, whatever it held; nothing
/// is written, and nothing changes, for `None`.
proof fn lemma_message_options_read_no_standard_descriptor_accessor(d: MessageOptionsView, o: Option<bool>, rest: Seq<u8>, depth: nat, limit: nat)
    requires
        parts_encodable(opt_field_parts::<raw::Bool>(2u32, o)),
    ensures
        message_options_merged(d, parts_bytes(opt_field_parts::<raw::Bool>(2u32, o)) + rest, depth, limit, false, None) == message_options_merged(if o is Some { MessageOptionsView { no_standard_descriptor_accessor: o, ..d } } else { d }, rest, depth, limit, false, None),
{
    match o {
        None => {
            assert(parts_bytes(opt_field_parts::<raw::Bool>(2u32, o)) + rest =~= rest);
        },
        Some(x) => {
            let p = field_parts::<raw::Bool>(2u32, x);
            assert(p[1].0);
            let s = parts_bytes(p) + rest;
            lemma_field_bytes_read::<raw::Bool>(2u32, x, rest);
            lemma_tag_value(2u32, WireType::Varint);
            let hl = parts_bytes(p).len() as int;
            let k = varint_len(16u64) as int;
            let v2 = MessageOptionsView { no_standard_descriptor_accessor: Some(x), ..d };
            lemma_message_options_step(d, s, k, 16u32, hl - k, v2, depth, limit);
        },
    }
}

/// Reading the field `deprecated` of a `MessageOptions` written from `o` sets it to `o`, whatever it held; nothing
/// is written, and nothing changes, for `None`.
proof fn lemma_message_options_read_deprecated(d: MessageOptionsView, o: Option<bool>, rest: Seq<u8>, depth: nat, limit: nat)
    requires
        parts_encodable(opt_field_parts::<raw::Bool>(3u32, o)),
    ensures
        message_options_merged(d, parts_bytes(opt_field_parts::<raw::Bool>(3u32, o)) + rest, depth, limit, false, None) == message_options_merged(if o is Some { MessageOptionsView { deprecated: o, ..d } } else { d }, rest, depth, limit, false, None),
{
    match o {
        None => {
            assert(parts_bytes(opt_field_parts::<raw::Bool>(3u32, o)) + rest =~= rest);
        },
        Some(x) => {
            let p = field_parts::<raw::Bool>(3u32, x);
            assert(p[1].0);
            let s = parts_bytes(p) + rest;
            lemma_field_bytes_read::<raw::Bool>(3u32, x, rest);
            lemma_tag_value(3u32, WireType::Varint);
            let hl = parts_bytes(p).len() as int;
            let k = varint_len(24u64) as int;
            let v2 = MessageOptionsView { deprecated: Some(x), ..d };
            lemma_message_options_step(d, s, k, 24u32, hl - k, v2, depth, limit);
        },
    }
}

/// Reading the field `map_entry` of a `MessageOptions` written from `o` sets it to `o`, whatever it held; nothing
/// is written, and nothing changes, for `None`.
proof fn lemma_message_options_read_map_entry(d: MessageOptionsView, o: Option<bool>, rest: Seq<u8>, depth: nat, limit: nat)
    requires
        parts_encodable(opt_field_parts::<raw::Bool>(7u32, o)),
    ensures
        message_options_merged(d, parts_bytes(opt_field_parts::<raw::Bool>(7u32, o)) + rest, depth, limit, false, None) == message_options_merged(if o is Some { MessageOptionsView { map_entry: o, ..d } } else { d }, rest, depth, limit, false, None),
{
    match o {
        None => {
            assert(parts_bytes(opt_field_parts::<raw::Bool>(7u32, o)) + rest =~= rest);
        },
        Some(x) => {
            let p = field_parts::<raw::Bool>(7u32, x);
            assert(p[1].0);
            let s = parts_bytes(p) + rest;
            lemma_field_bytes_read::<raw::Bool>(7u32, x, rest);
            lemma_tag_value(7u32, WireType::Varint);
            let hl = parts_bytes(p).len() as int;
            let k = varint_len(56u64) as int;
            let v2 = MessageOptionsView { map_entry: Some(x), ..d };
            lemma_message_options_step(d, s, k, 56u32, hl - k, v2, depth, limit);
        },
    }
}

/// Reading unknown field values written one after the other into a `MessageOptions`, none with the tag
/// of one of its fields, adds them to its unknown fields.
proof fn lemma_message_options_read_unknown(v: MessageOptionsView, ps: Seq<(u32, FieldValue)>, rest: Seq<u8>, depth: nat, limit: nat)
    requires
        forall|k: int| 0 <= k < ps.len() ==> value_readable(#[trigger] ps[k].0, ps[k].1) && !message_options_known_tag(
            tag_value(ps[k].0, field_value_wire_type(ps[k].1)),
        ),
    ensures
        message_options_merged(v, parts_bytes(pairs_parts(ps)) + rest, depth, limit, false, None) == message_options_merged(
            MessageOptionsView { unknown_fields: push_pairs(v.unknown_fields, ps), ..v },
            rest,
            depth, limit, false, None,
        ),
    decreases ps.len(),
{
    if ps.len() == 0 {
        assert(parts_bytes(pairs_parts(ps)) + rest =~= rest);
    } else {
        let n = ps[0].0;
        let fv = ps[0].1;
        let tail = ps.drop_first();
        assert forall|k: int| 0 <= k < tail.len() implies value_readable(#[trigger] tail[k].0, tail[k].1) && !message_options_known_tag(
            tag_value(tail[k].0, field_value_wire_type(tail[k].1)),
        ) by {
            assert(tail[k] == ps[k + 1]);
        }
        assert(value_readable(ps[0].0, ps[0].1));
        lemma_parts_bytes_append(field_value_parts(n, fv), pairs_parts(tail));
        let after = parts_bytes(pairs_parts(tail)) + rest;
        let s = parts_bytes(pairs_parts(ps)) + rest;
        assert(s =~= parts_bytes(field_value_parts(n, fv)) + after);
        lemma_read_value_bytes(n, fv, after);
        let t = tag_value(n, field_value_wire_type(fv));
        let hl = parts_bytes(field_value_parts(n, fv)).len() as int;
        let k = varint_len(t as u64) as int;
        let v2 = MessageOptionsView { unknown_fields: view_push(v.unknown_fields, n, fv), ..v };
        lemma_message_options_step(v, s, k, t, hl - k, v2, depth, limit);
        lemma_message_options_read_unknown(v2, tail, rest, depth, limit);
    }
}

/// The writability of the parts of a `MessageOptions` is that of each field's parts.
proof fn lemma_message_options_parts_encodable(v: MessageOptionsView)
    ensures
        parts_encodable(message_options_parts(v)) == (parts_encodable(opt_field_parts::<raw::Bool>(1u32, v.message_set_wire_format)) && parts_encodable(opt_field_parts::<raw::Bool>(2u32, v.no_standard_descriptor_accessor)) && parts_encodable(opt_field_parts::<raw::Bool>(3u32, v.deprecated)) && parts_encodable(opt_field_parts::<raw::Bool>(7u32, v.map_entry)) && parts_encodable(uninterpreted_option_seq_parts(999u32, v.uninterpreted_option)) && parts_encodable(set_parts(v.unknown_fields))),
{
    reveal(message_options_parts);
    let p0 = opt_field_parts::<raw::Bool>(1u32, v.message_set_wire_format);
    let p1 = opt_field_parts::<raw::Bool>(2u32, v.no_standard_descriptor_accessor);
    let p2 = opt_field_parts::<raw::Bool>(3u32, v.deprecated);
    let p3 = opt_field_parts::<raw::Bool>(7u32, v.map_entry);
    let p4 = uninterpreted_option_seq_parts(999u32, v.uninterpreted_option);
    let p5 = set_parts(v.unknown_fields);
    let q5 = p5;
    let q4 = p4 + q5;
    lemma_parts_encodable_two(p4, q5);
    let q3 = p3 + q4;
    lemma_parts_encodable_two(p3, q4);
    let q2 = p2 + q3;
    lemma_parts_encodable_two(p2, q3);
    let q1 = p1 + q2;
    lemma_parts_encodable_two(p1, q2);
    let q0 = p0 + q1;
    lemma_parts_encodable_two(p0, q1);
    assert(message_options_parts(v) == q0);
}

/// The bytes of the parts of a `MessageOptions` are those of each field's parts, one after the other.
proof fn lemma_message_options_parts_bytes(v: MessageOptionsView)
    ensures
        parts_bytes(message_options_parts(v)) == parts_bytes(opt_field_parts::<raw::Bool>(1u32, v.message_set_wire_format)) + (parts_bytes(opt_field_parts::<raw::Bool>(2u32, v.no_standard_descriptor_accessor)) + (parts_bytes(opt_field_parts::<raw::Bool>(3u32, v.deprecated)) + (parts_bytes(opt_field_parts::<raw::Bool>(7u32, v.map_entry)) + (parts_bytes(uninterpreted_option_seq_parts(999u32, v.uninterpreted_option)) + parts_bytes(set_parts(v.unknown_fields)))))),
{
    reveal(message_options_parts);
    let p0 = opt_field_parts::<raw::Bool>(1u32, v.message_set_wire_format);
    let p1 = opt_field_parts::<raw::Bool>(2u32, v.no_standard_descriptor_accessor);
    let p2 = opt_field_parts::<raw::Bool>(3u32, v.deprecated);
    let p3 = opt_field_parts::<raw::Bool>(7u32, v.map_entry);
    let p4 = uninterpreted_option_seq_parts(999u32, v.uninterpreted_option);
    let p5 = set_parts(v.unknown_fields);
    let q5 = p5;
    let q4 = p4 + q5;
    lemma_parts_bytes_append(p4, q5);
    let q3 = p3 + q4;
    lemma_parts_bytes_append(p3, q4);
    let q2 = p2 + q3;
    lemma_parts_bytes_append(p2, q3);
    let q1 = p1 + q2;
    lemma_parts_bytes_append(p1, q2);
    let q0 = p0 + q1;
    lemma_parts_bytes_append(p0, q1);
    assert(message_options_parts(v) == q0);
}

/// The message a `MessageOptions` `d` becomes when `v` is merged into it: each field `v` holds once
/// replaces the one `d` holds, the values of each repeated field of `v` follow those of `d`,
/// and the unknown fields of `v` are added to those of `d`, field number by field number.
pub open spec fn message_options_merge_view(d: MessageOptionsView, v: MessageOptionsView) -> MessageOptionsView {
    MessageOptionsView { message_set_wire_format: newer_or(v.message_set_wire_format, d.message_set_wire_format), no_standard_descriptor_accessor: newer_or(v.no_standard_descriptor_accessor, d.no_standard_descriptor_accessor), deprecated: newer_or(v.deprecated, d.deprecated), map_entry: newer_or(v.map_entry, d.map_entry), uninterpreted_option: d.uninterpreted_option + v.uninterpreted_option, unknown_fields: view_merge(d.unknown_fields, v.unknown_fields) }
}

/// Reading the bytes of the parts of a `MessageOptions` `v`, field by field, into `d` merges `v` into `d`.
#[verifier::spinoff_prover]
#[verifier::rlimit(60)]
proof fn lemma_message_options_merge_all(d: MessageOptionsView, v: MessageOptionsView, depth: nat, limit: nat)
    requires
        parts_encodable(opt_field_parts::<raw::Bool>(1u32, v.message_set_wire_format)),
        parts_encodable(opt_field_parts::<raw::Bool>(2u32, v.no_standard_descriptor_accessor)),
        parts_encodable(opt_field_parts::<raw::Bool>(3u32, v.deprecated)),
        parts_encodable(opt_field_parts::<raw::Bool>(7u32, v.map_entry)),
        parts_encodable(uninterpreted_option_seq_parts(999u32, v.uninterpreted_option)),
        message_options_roundtrips(v, depth, limit),
        parts_bytes(message_options_parts(v)) == parts_bytes(opt_field_parts::<raw::Bool>(1u32, v.message_set_wire_format)) + (parts_bytes(opt_field_parts::<raw::Bool>(2u32, v.no_standard_descriptor_accessor)) + (parts_bytes(opt_field_parts::<raw::Bool>(3u32, v.deprecated)) + (parts_bytes(opt_field_parts::<raw::Bool>(7u32, v.map_entry)) + (parts_bytes(uninterpreted_option_seq_parts(999u32, v.uninterpreted_option)) + parts_bytes(set_parts(v.unknown_fields)))))),
    ensures
        message_options_merged(d, parts_bytes(message_options_parts(v)), depth, limit, false, None) == Ok::<MessageOptionsView, ReadError>(message_options_merge_view(d, v)),
{
    let p0 = opt_field_parts::<raw::Bool>(1u32, v.message_set_wire_format);
    let p1 = opt_field_parts::<raw::Bool>(2u32, v.no_standard_descriptor_accessor);
    let p2 = opt_field_parts::<raw::Bool>(3u32, v.deprecated);
    let p3 = opt_field_parts::<raw::Bool>(7u32, v.map_entry);
    let p4 = uninterpreted_option_seq_parts(999u32, v.uninterpreted_option);
    let p5 = set_parts(v.unknown_fields);
    let b0 = parts_bytes(p0);
    let b1 = parts_bytes(p1);
    let b2 = parts_bytes(p2);
    let b3 = parts_bytes(p3);
    let b4 = parts_bytes(p4);
    let b5 = parts_bytes(p5);
    let r5 = b5;
    let r4 = b4 + r5;
    let r3 = b3 + r4;
    let r2 = b2 + r3;
    let r1 = b1 + r2;
    let r0 = b0 + r1;
    let d0 = d;
    let d1 = MessageOptionsView { message_set_wire_format: newer_or(v.message_set_wire_format, d.message_set_wire_format), ..d0 };
    assert(message_options_merged(d0, r0, depth, limit, false, None) == message_options_merged(d1, r1, depth, limit, false, None)) by {
        lemma_message_options_read_message_set_wire_format(d0, v.message_set_wire_format, r1, depth, limit);
        assert((if v.message_set_wire_format is Some { MessageOptionsView { message_set_wire_format: v.message_set_wire_format, ..d0 } } else { d0 }) == d1);
    }
    let d2 = MessageOptionsView { no_standard_descriptor_accessor: newer_or(v.no_standard_descriptor_accessor, d.no_standard_descriptor_accessor), ..d1 };
    assert(message_options_merged(d1, r1, depth, limit, false, None) == message_options_merged(d2, r2, depth, limit, false, None)) by {
        lemma_message_options_read_no_standard_descriptor_accessor(d1, v.no_standard_descriptor_accessor, r2, depth, limit);
        assert((if v.no_standard_descriptor_accessor is Some { MessageOptionsView { no_standard_descriptor_accessor: v.no_standard_descriptor_accessor, ..d1 } } else { d1 }) == d2);
    }
    let d3 = MessageOptionsView { deprecated: newer_or(v.deprecated, d.deprecated), ..d2 };
    assert(message_options_merged(d2, r2, depth, limit, false, None) == message_options_merged(d3, r3, depth, limit, false, None)) by {
        lemma_message_options_read_deprecated(d2, v.deprecated, r3, depth, limit);
        assert((if v.deprecated is Some { MessageOptionsView { deprecated: v.deprecated, ..d2 } } else { d2 }) == d3);
    }
    let d4 = MessageOptionsView { map_entry: newer_or(v.map_entry, d.map_entry), ..d3 };
    assert(message_options_merged(d3, r3, depth, limit, false, None) == message_options_merged(d4, r4, depth, limit, false, None)) by {
        lemma_message_options_read_map_entry(d3, v.map_entry, r4, depth, limit);
        assert((if v.map_entry is Some { MessageOptionsView { map_entry: v.map_entry, ..d3 } } else { d3 }) == d4);
    }
    let d5 = MessageOptionsView { uninterpreted_option: d.uninterpreted_option + v.uninterpreted_option, ..d4 };
    assert(message_options_merged(d4, r4, depth, limit, false, None) == message_options_merged(d5, r5, depth, limit, false, None)) by {
        lemma_message_options_read_uninterpreted_option(d4, v.uninterpreted_option, r5, depth, limit);
        assert(MessageOptionsView { uninterpreted_option: d4.uninterpreted_option + v.uninterpreted_option, ..d4 } == d5);
    }
    let ps = set_pairs(v.unknown_fields);
    assert(message_options_merged(d5, r5, depth, limit, false, None) == Ok::<MessageOptionsView, ReadError>(message_options_merge_view(d, v))) by {
        lemma_set_pairs(v.unknown_fields, d.unknown_fields);
        lemma_entries_readable(v.unknown_fields);
        assert forall|k: int| 0 <= k < ps.len() implies value_readable(#[trigger] ps[k].0, ps[k].1) && !message_options_known_tag(
            tag_value(ps[k].0, field_value_wire_type(ps[k].1)),
        ) by {
            assert(!message_options_known_tag(tag_value(set_pairs(v.unknown_fields)[k].0, field_value_wire_type(set_pairs(v.unknown_fields)[k].1))));
        }
        lemma_message_options_read_unknown(d5, ps, Seq::empty(), depth, limit);
        assert(b5 + Seq::<u8>::empty() =~= b5);
        let dl = MessageOptionsView { unknown_fields: push_pairs(d5.unknown_fields, ps), ..d5 };
        assert(dl == message_options_merge_view(d, v));
    }
}

/// Reading the bytes of the parts of a `MessageOptions`, field by field, gives the message back.
proof fn lemma_message_options_read_all(v: MessageOptionsView, depth: nat, limit: nat)
    requires
        parts_encodable(opt_field_parts::<raw::Bool>(1u32, v.message_set_wire_format)),
        parts_encodable(opt_field_parts::<raw::Bool>(2u32, v.no_standard_descriptor_accessor)),
        parts_encodable(opt_field_parts::<raw::Bool>(3u32, v.deprecated)),
        parts_encodable(opt_field_parts::<raw::Bool>(7u32, v.map_entry)),
        parts_encodable(uninterpreted_option_seq_parts(999u32, v.uninterpreted_option)),
        message_options_roundtrips(v, depth, limit),
        parts_bytes(message_options_parts(v)) == parts_bytes(opt_field_parts::<raw::Bool>(1u32, v.message_set_wire_format)) + (parts_bytes(opt_field_parts::<raw::Bool>(2u32, v.no_standard_descriptor_accessor)) + (parts_bytes(opt_field_parts::<raw::Bool>(3u32, v.deprecated)) + (parts_bytes(opt_field_parts::<raw::Bool>(7u32, v.map_entry)) + (parts_bytes(uninterpreted_option_seq_parts(999u32, v.uninterpreted_option)) + parts_bytes(set_parts(v.unknown_fields)))))),
    ensures
        message_options_merged(message_options_default(), parts_bytes(message_options_parts(v)), depth, limit, false, None) == Ok::<MessageOptionsView, ReadError>(v),
{
    lemma_message_options_merge_all(message_options_default(), v, depth, limit);
    lemma_entries_readable(v.unknown_fields);
    lemma_merge_into_empty(v.unknown_fields);
    assert(Seq::empty() + v.uninterpreted_option =~= v.uninterpreted_option);
    assert(message_options_merge_view(message_options_default(), v) == v);
}

/// Merging what a `MessageOptions` `v` writes into a message `d` merges `v` into `d`: each field `v`
/// holds replaces the one `d` holds, repeated values follow those `d` holds, and unknown fields
/// are added to those of `d`, where `d` holds none of the message fields `v` holds (those are
/// merged into each other), at nesting depth `depth` of a reader with recursion limit `limit`
/// that keeps unknown fields, outside any group, where `v` is read back as written.
pub proof fn lemma_message_options_merge_written(d: MessageOptionsView, v: MessageOptionsView, depth: nat, limit: nat)
    requires
        parts_encodable(message_options_parts(v)),
        message_options_roundtrips(v, depth, limit),
    ensures
        message_options_merged(d, parts_bytes(message_options_parts(v)), depth, limit, false, None) == Ok::<MessageOptionsView, ReadError>(message_options_merge_view(d, v)),
{
    lemma_message_options_parts_encodable(v);
    lemma_message_options_parts_bytes(v);
    lemma_message_options_merge_all(d, v, depth, limit);
}

/// A `MessageOptions` is read back as it is written: merging the bytes of its parts into a default
/// message, at nesting depth `depth` of a reader with recursion limit `limit` that keeps
/// unknown fields, outside any group, gives the message back, where it is read back as written.
pub proof fn lemma_message_options_roundtrip(v: MessageOptionsView, depth: nat, limit: nat)
    requires
        parts_encodable(message_options_parts(v)),
        message_options_roundtrips(v, depth, limit),
    ensures
        message_options_merged(message_options_default(), parts_bytes(message_options_parts(v)), depth, limit, false, None) == Ok::<MessageOptionsView, ReadError>(v),
{
    lemma_message_options_parts_encodable(v);
    lemma_message_options_parts_bytes(v);
    lemma_message_options_read_all(v, depth, limit);
}

/// The `FieldOptions` message of `descriptor.proto`.
#[derive(Clone, Debug)]
pub struct FieldOptions {
    ctype: Option<CType>,
    packed: Option<bool>,
    jstype: Option<JSType>,
    lazy: Option<bool>,
    deprecated: Option<bool>,
    weak: Option<bool>,
    uninterpreted_option: RepeatedField<UninterpretedOption>,
    unknown_fields: UnknownFieldSet,
}

/// The view of a `FieldOptions`: its fields, and its unknown fields.
pub struct FieldOptionsView {
    /// The `ctype` field.
    pub ctype: Option<i32>,
    /// The `packed` field.
    pub packed: Option<bool>,
    /// The `jstype` field.
    pub jstype: Option<i32>,
    /// The `lazy` field.
    pub lazy: Option<bool>,
    /// The `deprecated` field.
    pub deprecated: Option<bool>,
    /// The `weak` field.
    pub weak: Option<bool>,
    /// The `uninterpreted_option` field.
    pub uninterpreted_option: Seq<UninterpretedOptionView>,
    /// The unknown fields.
    pub unknown_fields: Seq<(u32, Seq<FieldValue>)>,
}

/// The view of a `FieldOptions` value.
pub closed spec fn field_options_view(m: FieldOptions) -> FieldOptionsView
{
    FieldOptionsView {
        ctype: opt_view(m.ctype),
        packed: m.packed,
        jstype: opt_view(m.jstype),
        lazy: m.lazy,
        deprecated: m.deprecated,
        weak: m.weak,
        uninterpreted_option: uninterpreted_option_seq_view(m.uninterpreted_option@),
        unknown_fields: m.unknown_fields@,
    }
}

/// The view of a `FieldOptions` with no field set.
pub open spec fn field_options_default() -> FieldOptionsView {
    FieldOptionsView {
        ctype: None,
        packed: None,
        jstype: None,
        lazy: None,
        deprecated: None,
        weak: None,
        uninterpreted_option: Seq::empty(),
        unknown_fields: Seq::empty(),
    }
}

impl View for FieldOptions {
    type V = FieldOptionsView;

    open spec fn view(&self) -> FieldOptionsView {
        field_options_view(*self)
    }
}

impl Default for FieldOptions {
    /// A message with no field set.
    fn default() -> (r: FieldOptions)
        ensures
            r@ == field_options_default(),
    {
        let r = FieldOptions {
            ctype: None,
            packed: None,
            jstype: None,
            lazy: None,
            deprecated: None,
            weak: None,
            uninterpreted_option: Vec::new(),
            unknown_fields: UnknownFieldSet::new(),
        };
        proof {
            assert(uninterpreted_option_seq_view(r.uninterpreted_option@) =~= Seq::empty());
            assert(r@ =~= field_options_default());
        }
        r
    }
}

impl FieldOptions {
    /// Gets the `ctype` field, or its default, `STRING`.
    pub fn ctype(&self) -> (r: CType)
        ensures
            r@ == self@.ctype.unwrap_or(0i32),
    {
        match self.ctype {
            Some(v) => v,
            None => CType::STRING(),
        }
    }

    /// Gets the `ctype` field if it is set.
    pub fn ctype_option(&self) -> (r: Option<&CType>)
        ensures
            opt_ref_view(r) == self@.ctype,
    {
        self.ctype.as_ref()
    }

    /// Gets the `ctype` field for changing it, setting it to its type's default first if it
    /// is not set.
    pub fn ctype_mut(&mut self) -> (r: &mut CType)
        ensures
            (*r)@ == old(self)@.ctype.unwrap_or(0i32),
            final(self)@ == (FieldOptionsView { ctype: Some((*final(r))@), ..old(self)@ }),
    {
        self.ctype.get_or_insert(CType(0))
    }

    /// Returns whether the `ctype` field is set.
    pub fn has_ctype(&self) -> (r: bool)
        ensures
            r == self@.ctype is Some,
    {
        self.ctype.is_some()
    }

    /// Sets the `ctype` field.
    pub fn set_ctype(&mut self, value: CType)
        ensures
            final(self)@ == (FieldOptionsView { ctype: Some(value@), ..old(self)@ }),
    {
        self.ctype = Some(value);
    }

    /// Takes the `ctype` field out, leaving it unset.
    pub fn take_ctype(&mut self) -> (r: Option<CType>)
        ensures
            opt_view(r) == old(self)@.ctype,
            final(self)@ == (FieldOptionsView { ctype: None, ..old(self)@ }),
    {
        self.ctype.take()
    }

    /// Clears the `ctype` field, leaving it unset.
    pub fn clear_ctype(&mut self)
        ensures
            final(self)@ == (FieldOptionsView { ctype: None, ..old(self)@ }),
    {
        self.ctype = None;
    }

    /// Gets the `packed` field, or its default, `false`.
    pub fn packed(&self) -> (r: bool)
        ensures
            r == self@.packed.unwrap_or(false),
    {
        match self.packed {
            Some(v) => v,
            None => false,
        }
    }

    /// Gets the `packed` field if it is set.
    pub fn packed_option(&self) -> (r: Option<&bool>)
        ensures
            opt_ref_view(r) == self@.packed,
    {
        self.packed.as_ref()
    }

    /// Gets the `packed` field for changing it, setting it to its type's default first if it
    /// is not set.
    pub fn packed_mut(&mut self) -> (r: &mut bool)
        ensures
            (*r)@ == old(self)@.packed.unwrap_or(false),
            final(self)@ == (FieldOptionsView { packed: Some((*final(r))@), ..old(self)@ }),
    {
        self.packed.get_or_insert(false)
    }

    /// Returns whether the `packed` field is set.
    pub fn has_packed(&self) -> (r: bool)
        ensures
            r == self@.packed is Some,
    {
        self.packed.is_some()
    }

    /// Sets the `packed` field.
    pub fn set_packed(&mut self, value: bool)
        ensures
            final(self)@ == (FieldOptionsView { packed: Some(value@), ..old(self)@ }),
    {
        self.packed = Some(value);
    }

    /// Takes the `packed` field out, leaving it unset.
    pub fn take_packed(&mut self) -> (r: Option<bool>)
        ensures
            opt_view(r) == old(self)@.packed,
            final(self)@ == (FieldOptionsView { packed: None, ..old(self)@ }),
    {
        self.packed.take()
    }

    /// Clears the `packed` field, leaving it unset.
    pub fn clear_packed(&mut self)
        ensures
            final(self)@ == (FieldOptionsView { packed: None, ..old(self)@ }),
    {
        self.packed = None;
    }

    /// Gets the `jstype` field, or its default, `JS_NORMAL`.
    pub fn jstype(&self) -> (r: JSType)
        ensures
            r@ == self@.jstype.unwrap_or(0i32),
    {
        match self.jstype {
            Some(v) => v,
            None => JSType::JS_NORMAL(),
        }
    }

    /// Gets the `jstype` field if it is set.
    pub fn jstype_option(&self) -> (r: Option<&JSType>)
        ensures
            opt_ref_view(r) == self@.jstype,
    {
        self.jstype.as_ref()
    }

    /// Gets the `jstype` field for changing it, setting it to its type's default first if it
    /// is not set.
    pub fn jstype_mut(&mut self) -> (r: &mut JSType)
        ensures
            (*r)@ == old(self)@.jstype.unwrap_or(0i32),
            final(self)@ == (FieldOptionsView { jstype: Some((*final(r))@), ..old(self)@ }),
    {
        self.jstype.get_or_insert(JSType(0))
    }

    /// Returns whether the `jstype` field is set.
    pub fn has_jstype(&self) -> (r: bool)
        ensures
            r == self@.jstype is Some,
    {
        self.jstype.is_some()
    }

    /// Sets the `jstype` field.
    pub fn set_jstype(&mut self, value: JSType)
        ensures
            final(self)@ == (FieldOptionsView { jstype: Some(value@), ..old(self)@ }),
    {
        self.jstype = Some(value);
    }

    /// Takes the `jstype` field out, leaving it unset.
    pub fn take_jstype(&mut self) -> (r: Option<JSType>)
        ensures
            opt_view(r) == old(self)@.jstype,
            final(self)@ == (FieldOptionsView { jstype: None, ..old(self)@ }),
    {
        self.jstype.take()
    }

    /// Clears the `jstype` field, leaving it unset.
    pub fn clear_jstype(&mut self)
        ensures
            final(self)@ == (FieldOptionsView { jstype: None, ..old(self)@ }),
    {
        self.jstype = None;
    }

    /// Gets the `lazy` field, or its default, `false`.
    pub fn lazy(&self) -> (r: bool)
        ensures
            r == self@.lazy.unwrap_or(false),
    {
        match self.lazy {
            Some(v) => v,
            None => false,
        }
    }

    /// Gets the `lazy` field if it is set.
    pub fn lazy_option(&self) -> (r: Option<&bool>)
        ensures
            opt_ref_view(r) == self@.lazy,
    {
        self.lazy.as_ref()
    }

    /// Gets the `lazy` field for changing it, setting it to its type's default first if it
    /// is not set.
    pub fn lazy_mut(&mut self) -> (r: &mut bool)
        ensures
            (*r)@ == old(self)@.lazy.unwrap_or(false),
            final(self)@ == (FieldOptionsView { lazy: Some((*final(r))@), ..old(self)@ }),
    {
        self.lazy.get_or_insert(false)
    }

    /// Returns whether the `lazy` field is set.
    pub fn has_lazy(&self) -> (r: bool)
        ensures
            r == self@.lazy is Some,
    {
        self.lazy.is_some()
    }

    /// Sets the `lazy` field.
    pub fn set_lazy(&mut self, value: bool)
        ensures
            final(self)@ == (FieldOptionsView { lazy: Some(value@), ..old(self)@ }),
    {
        self.lazy = Some(value);
    }

    /// Takes the `lazy` field out, leaving it unset.
    pub fn take_lazy(&mut self) -> (r: Option<bool>)
        ensures
            opt_view(r) == old(self)@.lazy,
            final(self)@ == (FieldOptionsView { lazy: None, ..old(self)@ }),
    {
        self.lazy.take()
    }

    /// Clears the `lazy` field, leaving it unset.
    pub fn clear_lazy(&mut self)
        ensures
            final(self)@ == (FieldOptionsView { lazy: None, ..old(self)@ }),
    {
        self.lazy = None;
    }

    /// Gets the `deprecated` field, or its default, `false`.
    pub fn deprecated(&self) -> (r: bool)
        ensures
            r == self@.deprecated.unwrap_or(false),
    {
        match self.deprecated {
            Some(v) => v,
            None => false,
        }
    }

    /// Gets the `deprecated` field if it is set.
    pub fn deprecated_option(&self) -> (r: Option<&bool>)
        ensures
            opt_ref_view(r) == self@.deprecated,
    {
        self.deprecated.as_ref()
    }

    /// Gets the `deprecated` field for changing it, setting it to its type's default first if it
    /// is not set.
    pub fn deprecated_mut(&mut self) -> (r: &mut bool)
        ensures
            (*r)@ == old(self)@.deprecated.unwrap_or(false),
            final(self)@ == (FieldOptionsView { deprecated: Some((*final(r))@), ..old(self)@ }),
    {
        self.deprecated.get_or_insert(false)
    }

    /// Returns whether the `deprecated` field is set.
    pub fn has_deprecated(&self) -> (r: bool)
        ensures
            r == self@.deprecated is Some,
    {
        self.deprecated.is_some()
    }

    /// Sets the `deprecated` field.
    pub fn set_deprecated(&mut self, value: bool)
        ensures
            final(self)@ == (FieldOptionsView { deprecated: Some(value@), ..old(self)@ }),
    {
        self.deprecated = Some(value);
    }

    /// Takes the `deprecated` field out, leaving it unset.
    pub fn take_deprecated(&mut self) -> (r: Option<bool>)
        ensures
            opt_view(r) == old(self)@.deprecated,
            final(self)@ == (FieldOptionsView { deprecated: None, ..old(self)@ }),
    {
        self.deprecated.take()
    }

    /// Clears the `deprecated` field, leaving it unset.
    pub fn clear_deprecated(&mut self)
        ensures
            final(self)@ == (FieldOptionsView { deprecated: None, ..old(self)@ }),
    {
        self.deprecated = None;
    }

    /// Gets the `weak` field, or its default, `false`.
    pub fn weak(&self) -> (r: bool)
        ensures
            r == self@.weak.unwrap_or(false),
    {
        match self.weak {
            Some(v) => v,
            None => false,
        }
    }

    /// Gets the `weak` field if it is set.
    pub fn weak_option(&self) -> (r: Option<&bool>)
        ensures
            opt_ref_view(r) == self@.weak,
    {
        self.weak.as_ref()
    }

    /// Gets the `weak` field for changing it, setting it to its type's default first if it
    /// is not set.
    pub fn weak_mut(&mut self) -> (r: &mut bool)
        ensures
            (*r)@ == old(self)@.weak.unwrap_or(false),
            final(self)@ == (FieldOptionsView { weak: Some((*final(r))@), ..old(self)@ }),
    {
        self.weak.get_or_insert(false)
    }

    /// Returns whether the `weak` field is set.
    pub fn has_weak(&self) -> (r: bool)
        ensures
            r == self@.weak is Some,
    {
        self.weak.is_some()
    }

    /// Sets the `weak` field.
    pub fn set_weak(&mut self, value: bool)
        ensures
            final(self)@ == (FieldOptionsView { weak: Some(value@), ..old(self)@ }),
    {
        self.weak = Some(value);
    }

    /// Takes the `weak` field out, leaving it unset.
    pub fn take_weak(&mut self) -> (r: Option<bool>)
        ensures
            opt_view(r) == old(self)@.weak,
            final(self)@ == (FieldOptionsView { weak: None, ..old(self)@ }),
    {
        self.weak.take()
    }

    /// Clears the `weak` field, leaving it unset.
    pub fn clear_weak(&mut self)
        ensures
            final(self)@ == (FieldOptionsView { weak: None, ..old(self)@ }),
    {
        self.weak = None;
    }

    /// Gets the values of the `uninterpreted_option` field.
    pub fn uninterpreted_option(&self) -> (r: &RepeatedField<UninterpretedOption>)
        ensures
            uninterpreted_option_seq_view(r@) == self@.uninterpreted_option,
    {
        &self.uninterpreted_option
    }

    /// Gets the values of the `uninterpreted_option` field for changing them.
    pub fn uninterpreted_option_mut(&mut self) -> (r: &mut RepeatedField<UninterpretedOption>)
        ensures
            uninterpreted_option_seq_view((*r)@) == old(self)@.uninterpreted_option,
            final(self)@ == (FieldOptionsView { uninterpreted_option: uninterpreted_option_seq_view((*final(r))@), ..old(self)@ }),
    {
        &mut self.uninterpreted_option
    }
}

/// The parts a `FieldOptions` is written as: its fields that are set, in field number order, then its
/// unknown fields.
#[verifier::opaque]
pub open spec fn field_options_parts(v: FieldOptionsView) -> Seq<(bool, Seq<u8>)>
{
    opt_field_parts::<raw::Enum<field_options::CType>>(1u32, v.ctype) + (opt_field_parts::<raw::Bool>(2u32, v.packed) + (opt_field_parts::<raw::Bool>(3u32, v.deprecated) + (opt_field_parts::<raw::Bool>(5u32, v.lazy) + (opt_field_parts::<raw::Enum<field_options::JSType>>(6u32, v.jstype) + (opt_field_parts::<raw::Bool>(10u32, v.weak) + (uninterpreted_option_seq_parts(999u32, v.uninterpreted_option) + (set_parts(v.unknown_fields))))))))
}

/// What reading the field with tag value `t` from the front of `rest` into `v` gives: the
/// number of bytes read and the message after, or the error.
pub open spec fn field_options_field_read(v: FieldOptionsView, t: u32, rest: Seq<u8>, depth: nat, limit: nat, skip: bool, eg: Option<Tag>) -> ReadResult<(int, FieldOptionsView)>
{
    if t == 8u32 {
        match <raw::Enum<field_options::CType> as Value>::decoding(rest) { Ok((m, x)) => Ok((m, FieldOptionsView { ctype: Some(x), ..v })), Err(e) => Err(e) }
    } else if t == 16u32 {
        match <raw::Bool as Value>::decoding(rest) { Ok((m, x)) => Ok((m, FieldOptionsView { packed: Some(x), ..v })), Err(e) => Err(e) }
    } else if t == 24u32 {
        match <raw::Bool as Value>::decoding(rest) { Ok((m, x)) => Ok((m, FieldOptionsView { deprecated: Some(x), ..v })), Err(e) => Err(e) }
    } else if t == 40u32 {
        match <raw::Bool as Value>::decoding(rest) { Ok((m, x)) => Ok((m, FieldOptionsView { lazy: Some(x), ..v })), Err(e) => Err(e) }
    } else if t == 48u32 {
        match <raw::Enum<field_options::JSType> as Value>::decoding(rest) { Ok((m, x)) => Ok((m, FieldOptionsView { jstype: Some(x), ..v })), Err(e) => Err(e) }
    } else if t == 80u32 {
        match <raw::Bool as Value>::decoding(rest) { Ok((m, x)) => Ok((m, FieldOptionsView { weak: Some(x), ..v })), Err(e) => Err(e) }
    } else if t == 7994u32 {
        match length_delimited_read(rest) { Err(e) => Err(e), Ok((m, b)) => if depth >= limit { Err(ReadError::RecursionLimitExceeded) } else { match uninterpreted_option_merged(uninterpreted_option_default(), b, depth + 1, limit, skip, eg) { Ok(y) => Ok((m, FieldOptionsView { uninterpreted_option: v.uninterpreted_option.push(y), ..v })), Err(e) => Err(e) } } }
    } else {
        match unknown_field_read(v.unknown_fields, t, rest, depth, limit, skip, eg) {
            Ok((m, u)) => Ok((m, FieldOptionsView { unknown_fields: u, ..v })),
            Err(e) => Err(e),
        }
    }
}

/// What reading all of `s` into `v` as `FieldOptions` fields gives: the message after, or the error.
/// `depth` and `limit` are the reader's depth and recursion limit, `skip` whether it skips
/// unknown fields, and `eg` the end tag of the group it is in.
pub open spec fn field_options_merged(v: FieldOptionsView, s: Seq<u8>, depth: nat, limit: nat, skip: bool, eg: Option<Tag>) -> ReadResult<FieldOptionsView>
    decreases s.len(),
{
    if s.len() == 0 {
        Ok(v)
    } else {
        match varint_read(s) {
            Err(e) => Err(e),
            Ok((n, w)) => if n < 1 || n > s.len() {
                Err(eof())
            } else {
                match field_options_field_read(v, w as u32, s.skip(n), depth, limit, skip, eg) {
                    Err(e) => Err(e),
                    Ok((m, v2)) => if m < 0 || n + m > s.len() {
                        Err(eof())
                    } else {
                        field_options_merged(v2, s.skip(n + m), depth, limit, skip, eg)
                    },
                }
            },
        }
    }
}

/// Reads a `FieldOptions` from the reader as a length delimited value, merging it into `this`, one
/// level deeper.
fn merge_field_options_delimited(this: &mut FieldOptions, input: &mut CodedReader) -> (r: ReadResult<()>)
    ensures
        match length_delimited_read(old(input).available()) {
            Err(e) => r == Err::<(), ReadError>(e) && same_config(*old(input), *final(input)),
            Ok((m, b)) => if old(input).depth() >= old(input).recursion_limit() {
                r == Err::<(), ReadError>(ReadError::RecursionLimitExceeded) && same_config(*old(input), *final(input))
            } else {
                match field_options_merged(old(this)@, b, old(input).depth() + 1, old(input).recursion_limit(), skips(*old(input)), old(input).end_group_view()) {
                    Ok(y) => r is Ok && final(this)@ == y && final(input).position() == old(input).position() + m
                        && same_state(*old(input), *final(input)),
                    Err(e) => r == Err::<(), ReadError>(e) && same_config(*old(input), *final(input)),
                }
            },
        },
{
    let rem0 = input.remaining();
    let ghost s = input.available();
    let ghost start = *input;
    let length = match input.read_length() {
        Ok(l) => l,
        Err(e) => return Err(e),
    };
    let rem1 = input.remaining();
    let ghost n0 = input.position() - start.position();
    proof {
        lemma_varint_read_len(s);
        assert(input.available() =~= s.skip(n0));
    }
    let previous = match input.push_length(length) {
        Ok(p) => p,
        Err(e) => return Err(e),
    };
    let rem2 = input.remaining();
    let ghost b = s.subrange(n0, n0 + length@);
    proof {
        assert(input.available() =~= b);
        assert(length_delimited_read(s) == Ok::<(int, Seq<u8>), ReadError>((n0 + length@, b)));
    }
    let ghost pushed = *input;
    match input.increment_recursion_count() {
        Ok(()) => {},
        Err(e) => {
            input.pop_length(previous);
            return Err(e);
        },
    }
    let r = this.merge_from(input);
    let rem3 = input.remaining();
    input.decrement_recursion_count();
    input.pop_length(previous);
    r
}

/// The parts an optional `FieldOptions` field with field number `num` is written as: nothing where it
/// is not set, else its tag, its length and its parts.
pub open spec fn field_options_opt_parts(num: u32, o: Option<FieldOptionsView>) -> Seq<(bool, Seq<u8>)> {
    match o {
        Some(y) => entry_parts(num, field_options_parts(y)),
        None => Seq::empty(),
    }
}

/// Adds the size of an optional `FieldOptions` field with field number `num` to the builder.
fn field_options_opt_size(o: &Option<FieldOptions>, b: LengthBuilder, num: FieldNumber) -> (r: Option<LengthBuilder>)
    ensures
        size_added(b@ as int, parts_encodable(field_options_opt_parts(num@, opt_view(*o))), parts_bytes(field_options_opt_parts(num@, opt_view(*o))).len() as int, r),
{
    match o {
        Some(y) => {
            let len = y.calculate_size();
            add_entry_size(b, num, len, Ghost(field_options_parts(y@)))
        },
        None => {
            proof {
                assert(parts_encodable(Seq::<(bool, Seq<u8>)>::empty()));
                assert(parts_bytes(Seq::<(bool, Seq<u8>)>::empty()).len() == 0);
            }
            Some(b)
        },
    }
}

/// Writes an optional `FieldOptions` field with field number `num`: nothing where it is not set, else
/// its tag, its length and its fields.
fn write_field_options_opt(o: &Option<FieldOptions>, output: &mut CodedWriter, num: FieldNumber) -> (r: WriteResult)
    ensures
        (final(output).written(), r) == parts_written(old(output).written(), old(output).capacity(), field_options_opt_parts(num@, opt_view(*o))),
        final(output).capacity() == old(output).capacity(),
        (*final(final(output).target()))@ == (*final(old(output).target()))@,
{
    match o {
        Some(y) => {
            let ghost p = field_options_parts(y@);
            let ghost head = entry_head(num@, p);
            let ghost w0 = output.written();
            let ghost cap = output.capacity();
            proof {
                lemma_parts_written_append(w0, cap, head, p);
                reveal_with_fuel(parts_written, 3);
                assert(head.drop_first().drop_first() =~= Seq::<(bool, Seq<u8>)>::empty());
                lemma_varint_roundtrip(tag_value(num@, WireType::LengthDelimited) as u64);
            }
            match output.write_tag(Tag::new(num, WireType::LengthDelimited)) {
                Ok(()) => {},
                Err(e) => return Err(e),
            }
            let len = match y.calculate_size() {
                Some(len) => len,
                None => return Err(WriteError::ValueTooLarge),
            };
            proof {
                lemma_varint_roundtrip(len@ as u64);
            }
            match output.write_length(len) {
                Ok(()) => {},
                Err(e) => return Err(e),
            }
            y.write_to(output)
        },
        None => Ok(()),
    }
}

impl FieldOptions {
    /// Gets the unknown fields of the message.
    pub fn unknown_fields(&self) -> (r: &UnknownFieldSet)
        ensures
            r@ == self@.unknown_fields,
    {
        &self.unknown_fields
    }

    /// Gets the unknown fields of the message for changing them.
    pub fn unknown_fields_mut(&mut self) -> (r: &mut UnknownFieldSet)
        ensures
            (*r)@ == old(self)@.unknown_fields,
            final(self)@ == (FieldOptionsView { unknown_fields: (*final(r))@, ..old(self)@ }),
    {
        &mut self.unknown_fields
    }

    /// Returns whether the message is initialized: whether all its required fields are set.
    pub fn is_initialized(&self) -> (r: bool)
        ensures
            r,
    {
        if !crate::is_initialized(&self.uninterpreted_option) {
            return false;
        }
        true
    }

    /// Calculates the size of the message as it is written: `None` if a part cannot be
    /// written or the size does not fit in a length.
    #[verifier::spinoff_prover]
    #[verifier::rlimit(100)]
    pub fn calculate_size(&self) -> (r: Option<Length>)
        ensures
            opt_length(r) == parts_size(field_options_parts(self@)),
    {
        let ghost v = self@;
        let ghost all = field_options_parts(v);
        let b0 = LengthBuilder::new();
        let ghost d0 = Seq::<(bool, Seq<u8>)>::empty();
        proof {
            reveal(field_options_parts);
            assert(all =~= d0 + all);
        }
        let ghost p1 = opt_field_parts::<raw::Enum<field_options::CType>>(1u32, v.ctype);
        let ghost rest1 = opt_field_parts::<raw::Bool>(2u32, v.packed) + (opt_field_parts::<raw::Bool>(3u32, v.deprecated) + (opt_field_parts::<raw::Bool>(5u32, v.lazy) + (opt_field_parts::<raw::Enum<field_options::JSType>>(6u32, v.jstype) + (opt_field_parts::<raw::Bool>(10u32, v.weak) + (uninterpreted_option_seq_parts(999u32, v.uninterpreted_option) + (set_parts(v.unknown_fields)))))));
        proof {
            assert(self@.ctype == opt_inner_view::<raw::Enum<field_options::CType>>(self.ctype));
            assert(all == d0 + (p1 + rest1));
            assert(d0 + (p1 + rest1) =~= d0 + p1 + rest1);
        }
        let r1 = add_opt_field::<raw::Enum<field_options::CType>>(b0, FieldNumber::new_unchecked(1), &self.ctype);
        proof {
            lemma_size_chain(0, d0, p1, Some(b0), r1);
            if r1 is None {
                lemma_size_chain(0, d0 + p1, rest1, r1, r1);
            }
        }
        let b1 = match r1 {
            Some(b) => b,
            None => return None,
        };
        let ghost d1 = d0 + p1;
        let ghost p2 = opt_field_parts::<raw::Bool>(2u32, v.packed);
        let ghost rest2 = opt_field_parts::<raw::Bool>(3u32, v.deprecated) + (opt_field_parts::<raw::Bool>(5u32, v.lazy) + (opt_field_parts::<raw::Enum<field_options::JSType>>(6u32, v.jstype) + (opt_field_parts::<raw::Bool>(10u32, v.weak) + (uninterpreted_option_seq_parts(999u32, v.uninterpreted_option) + (set_parts(v.unknown_fields))))));
        proof {
            assert(self@.packed == opt_inner_view::<raw::Bool>(self.packed));
            assert(all == d1 + (p2 + rest2));
            assert(d1 + (p2 + rest2) =~= d1 + p2 + rest2);
        }
        let r2 = add_opt_field::<raw::Bool>(b1, FieldNumber::new_unchecked(2), &self.packed);
        proof {
            lemma_size_chain(0, d1, p2, Some(b1), r2);
            if r2 is None {
                lemma_size_chain(0, d1 + p2, rest2, r2, r2);
            }
        }
        let b2 = match r2 {
            Some(b) => b,
            None => return None,
        };
        let ghost d2 = d1 + p2;
        let ghost p3 = opt_field_parts::<raw::Bool>(3u32, v.deprecated);
        let ghost rest3 = opt_field_parts::<raw::Bool>(5u32, v.lazy) + (opt_field_parts::<raw::Enum<field_options::JSType>>(6u32, v.jstype) + (opt_field_parts::<raw::Bool>(10u32, v.weak) + (uninterpreted_option_seq_parts(999u32, v.uninterpreted_option) + (set_parts(v.unknown_fields)))));
        proof {
            assert(self@.deprecated == opt_inner_view::<raw::Bool>(self.deprecated));
            assert(all == d2 + (p3 + rest3));
            assert(d2 + (p3 + rest3) =~= d2 + p3 + rest3);
        }
        let r3 = add_opt_field::<raw::Bool>(b2, FieldNumber::new_unchecked(3), &self.deprecated);
        proof {
            lemma_size_chain(0, d2, p3, Some(b2), r3);
            if r3 is None {
                lemma_size_chain(0, d2 + p3, rest3, r3, r3);
            }
        }
        let b3 = match r3 {
            Some(b) => b,
            None => return None,
        };
        let ghost d3 = d2 + p3;
        let ghost p4 = opt_field_parts::<raw::Bool>(5u32, v.lazy);
        let ghost rest4 = opt_field_parts::<raw::Enum<field_options::JSType>>(6u32, v.jstype) + (opt_field_parts::<raw::Bool>(10u32, v.weak) + (uninterpreted_option_seq_parts(999u32, v.uninterpreted_option) + (set_parts(v.unknown_fields))));
        proof {
            assert(self@.lazy == opt_inner_view::<raw::Bool>(self.lazy));
            assert(all == d3 + (p4 + rest4));
            assert(d3 + (p4 + rest4) =~= d3 + p4 + rest4);
        }
        let r4 = add_opt_field::<raw::Bool>(b3, FieldNumber::new_unchecked(5), &self.lazy);
        proof {
            lemma_size_chain(0, d3, p4, Some(b3), r4);
            if r4 is None {
                lemma_size_chain(0, d3 + p4, rest4, r4, r4);
            }
        }
        let b4 = match r4 {
            Some(b) => b,
            None => return None,
        };
        let ghost d4 = d3 + p4;
        let ghost p5 = opt_field_parts::<raw::Enum<field_options::JSType>>(6u32, v.jstype);
        let ghost rest5 = opt_field_parts::<raw::Bool>(10u32, v.weak) + (uninterpreted_option_seq_parts(999u32, v.uninterpreted_option) + (set_parts(v.unknown_fields)));
        proof {
            assert(self@.jstype == opt_inner_view::<raw::Enum<field_options::JSType>>(self.jstype));
            assert(all == d4 + (p5 + rest5));
            assert(d4 + (p5 + rest5) =~= d4 + p5 + rest5);
        }
        let r5 = add_opt_field::<raw::Enum<field_options::JSType>>(b4, FieldNumber::new_unchecked(6), &self.jstype);
        proof {
            lemma_size_chain(0, d4, p5, Some(b4), r5);
            if r5 is None {
                lemma_size_chain(0, d4 + p5, rest5, r5, r5);
            }
        }
        let b5 = match r5 {
            Some(b) => b,
            None => return None,
        };
        let ghost d5 = d4 + p5;
        let ghost p6 = opt_field_parts::<raw::Bool>(10u32, v.weak);
        let ghost rest6 = uninterpreted_option_seq_parts(999u32, v.uninterpreted_option) + (set_parts(v.unknown_fields));
        proof {
            assert(self@.weak == opt_inner_view::<raw::Bool>(self.weak));
            assert(all == d5 + (p6 + rest6));
            assert(d5 + (p6 + rest6) =~= d5 + p6 + rest6);
        }
        let r6 = add_opt_field::<raw::Bool>(b5, FieldNumber::new_unchecked(10), &self.weak);
        proof {
            lemma_size_chain(0, d5, p6, Some(b5), r6);
            if r6 is None {
                lemma_size_chain(0, d5 + p6, rest6, r6, r6);
            }
        }
        let b6 = match r6 {
            Some(b) => b,
            None => return None,
        };
        let ghost d6 = d5 + p6;
        let ghost p7 = uninterpreted_option_seq_parts(999u32, v.uninterpreted_option);
        let ghost rest7 = set_parts(v.unknown_fields);
        proof {
            assert(all == d6 + (p7 + rest7));
            assert(d6 + (p7 + rest7) =~= d6 + p7 + rest7);
        }
        let r7 = uninterpreted_option_values_size(&self.uninterpreted_option, b6, FieldNumber::new_unchecked(999));
        proof {
            lemma_size_chain(0, d6, p7, Some(b6), r7);
            if r7 is None {
                lemma_size_chain(0, d6 + p7, rest7, r7, r7);
            }
        }
        let b7 = match r7 {
            Some(b) => b,
            None => return None,
        };
        let ghost d7 = d6 + p7;
        let ghost p8 = set_parts(v.unknown_fields);
        let ghost rest8 = Seq::<(bool, Seq<u8>)>::empty();
        proof {
            assert(all == d7 + p8);
            assert(p8 + rest8 =~= p8);
            assert(d7 + (p8 + rest8) =~= d7 + p8 + rest8);
        }
        let r8 = self.unknown_fields.calculate_size(b7);
        proof {
            lemma_size_chain(0, d7, p8, Some(b7), r8);
            if r8 is None {
                lemma_size_chain(0, d7 + p8, rest8, r8, r8);
            }
        }
        let b8 = match r8 {
            Some(b) => b,
            None => return None,
        };
        let ghost d8 = d7 + p8;
        Some(b8.build())
    }

    /// Writes the message to the writer: its fields that are set, in field number order, then
    /// its unknown fields.
    #[verifier::spinoff_prover]
    #[verifier::rlimit(100)]
    pub fn write_to(&self, output: &mut CodedWriter) -> (r: WriteResult)
        ensures
            (final(output).written(), r) == parts_written(old(output).written(), old(output).capacity(), field_options_parts(self@)),
            final(output).capacity() == old(output).capacity(),
            (*final(final(output).target()))@ == (*final(old(output).target()))@,
    {
        let ghost v = self@;
        let ghost all = field_options_parts(v);
        let ghost start = output.written();
        let ghost cap = output.capacity();
        let ghost d0 = Seq::<(bool, Seq<u8>)>::empty();
        proof {
            reveal(field_options_parts);
            assert(all =~= d0 + all);
        }
        let ghost p1 = opt_field_parts::<raw::Enum<field_options::CType>>(1u32, v.ctype);
        let ghost rest1 = opt_field_parts::<raw::Bool>(2u32, v.packed) + (opt_field_parts::<raw::Bool>(3u32, v.deprecated) + (opt_field_parts::<raw::Bool>(5u32, v.lazy) + (opt_field_parts::<raw::Enum<field_options::JSType>>(6u32, v.jstype) + (opt_field_parts::<raw::Bool>(10u32, v.weak) + (uninterpreted_option_seq_parts(999u32, v.uninterpreted_option) + (set_parts(v.unknown_fields)))))));
        proof {
            assert(self@.ctype == opt_inner_view::<raw::Enum<field_options::CType>>(self.ctype));
            assert(all == d0 + (p1 + rest1));
            assert(d0 + (p1 + rest1) =~= d0 + p1 + rest1);
            lemma_parts_written_append(start, cap, d0, p1);
            lemma_parts_written_append(start, cap, d0 + p1, rest1);
        }
        match write_opt_field::<raw::Enum<field_options::CType>>(output, FieldNumber::new_unchecked(1), &self.ctype) {
            Ok(()) => {},
            Err(e) => return Err(e),
        }
        let ghost d1 = d0 + p1;
        let ghost p2 = opt_field_parts::<raw::Bool>(2u32, v.packed);
        let ghost rest2 = opt_field_parts::<raw::Bool>(3u32, v.deprecated) + (opt_field_parts::<raw::Bool>(5u32, v.lazy) + (opt_field_parts::<raw::Enum<field_options::JSType>>(6u32, v.jstype) + (opt_field_parts::<raw::Bool>(10u32, v.weak) + (uninterpreted_option_seq_parts(999u32, v.uninterpreted_option) + (set_parts(v.unknown_fields))))));
        proof {
            assert(self@.packed == opt_inner_view::<raw::Bool>(self.packed));
            assert(all == d1 + (p2 + rest2));
            assert(d1 + (p2 + rest2) =~= d1 + p2 + rest2);
            lemma_parts_written_append(start, cap, d1, p2);
            lemma_parts_written_append(start, cap, d1 + p2, rest2);
        }
        match write_opt_field::<raw::Bool>(output, FieldNumber::new_unchecked(2), &self.packed) {
            Ok(()) => {},
            Err(e) => return Err(e),
        }
        let ghost d2 = d1 + p2;
        let ghost p3 = opt_field_parts::<raw::Bool>(3u32, v.deprecated);
        let ghost rest3 = opt_field_parts::<raw::Bool>(5u32, v.lazy) + (opt_field_parts::<raw::Enum<field_options::JSType>>(6u32, v.jstype) + (opt_field_parts::<raw::Bool>(10u32, v.weak) + (uninterpreted_option_seq_parts(999u32, v.uninterpreted_option) + (set_parts(v.unknown_fields)))));
        proof {
            assert(self@.deprecated == opt_inner_view::<raw::Bool>(self.deprecated));
            assert(all == d2 + (p3 + rest3));
            assert(d2 + (p3 + rest3) =~= d2 + p3 + rest3);
            lemma_parts_written_append(start, cap, d2, p3);
            lemma_parts_written_append(start, cap, d2 + p3, rest3);
        }
        match write_opt_field::<raw::Bool>(output, FieldNumber::new_unchecked(3), &self.deprecated) {
            Ok(()) => {},
            Err(e) => return Err(e),
        }
        let ghost d3 = d2 + p3;
        let ghost p4 = opt_field_parts::<raw::Bool>(5u32, v.lazy);
        let ghost rest4 = opt_field_parts::<raw::Enum<field_options::JSType>>(6u32, v.jstype) + (opt_field_parts::<raw::Bool>(10u32, v.weak) + (uninterpreted_option_seq_parts(999u32, v.uninterpreted_option) + (set_parts(v.unknown_fields))));
        proof {
            assert(self@.lazy == opt_inner_view::<raw::Bool>(self.lazy));
            assert(all == d3 + (p4 + rest4));
            assert(d3 + (p4 + rest4) =~= d3 + p4 + rest4);
            lemma_parts_written_append(start, cap, d3, p4);
            lemma_parts_written_append(start, cap, d3 + p4, rest4);
        }
        match write_opt_field::<raw::Bool>(output, FieldNumber::new_unchecked(5), &self.lazy) {
            Ok(()) => {},
            Err(e) => return Err(e),
        }
        let ghost d4 = d3 + p4;
        let ghost p5 = opt_field_parts::<raw::Enum<field_options::JSType>>(6u32, v.jstype);
        let ghost rest5 = opt_field_parts::<raw::Bool>(10u32, v.weak) + (uninterpreted_option_seq_parts(999u32, v.uninterpreted_option) + (set_parts(v.unknown_fields)));
        proof {
            assert(self@.jstype == opt_inner_view::<raw::Enum<field_options::JSType>>(self.jstype));
            assert(all == d4 + (p5 + rest5));
            assert(d4 + (p5 + rest5) =~= d4 + p5 + rest5);
            lemma_parts_written_append(start, cap, d4, p5);
            lemma_parts_written_append(start, cap, d4 + p5, rest5);
        }
        match write_opt_field::<raw::Enum<field_options::JSType>>(output, FieldNumber::new_unchecked(6), &self.jstype) {
            Ok(()) => {},
            Err(e) => return Err(e),
        }
        let ghost d5 = d4 + p5;
        let ghost p6 = opt_field_parts::<raw::Bool>(10u32, v.weak);
        let ghost rest6 = uninterpreted_option_seq_parts(999u32, v.uninterpreted_option) + (set_parts(v.unknown_fields));
        proof {
            assert(self@.weak == opt_inner_view::<raw::Bool>(self.weak));
            assert(all == d5 + (p6 + rest6));
            assert(d5 + (p6 + rest6) =~= d5 + p6 + rest6);
            lemma_parts_written_append(start, cap, d5, p6);
            lemma_parts_written_append(start, cap, d5 + p6, rest6);
        }
        match write_opt_field::<raw::Bool>(output, FieldNumber::new_unchecked(10), &self.weak) {
            Ok(()) => {},
            Err(e) => return Err(e),
        }
        let ghost d6 = d5 + p6;
        let ghost p7 = uninterpreted_option_seq_parts(999u32, v.uninterpreted_option);
        let ghost rest7 = set_parts(v.unknown_fields);
        proof {
            assert(all == d6 + (p7 + rest7));
            assert(d6 + (p7 + rest7) =~= d6 + p7 + rest7);
            lemma_parts_written_append(start, cap, d6, p7);
            lemma_parts_written_append(start, cap, d6 + p7, rest7);
        }
        match write_uninterpreted_option_values(&self.uninterpreted_option, output, FieldNumber::new_unchecked(999)) {
            Ok(()) => {},
            Err(e) => return Err(e),
        }
        let ghost d7 = d6 + p7;
        let ghost p8 = set_parts(v.unknown_fields);
        let ghost rest8 = Seq::<(bool, Seq<u8>)>::empty();
        proof {
            assert(all == d7 + p8);
            assert(p8 + rest8 =~= p8);
            assert(d7 + (p8 + rest8) =~= d7 + p8 + rest8);
            lemma_parts_written_append(start, cap, d7, p8);
            lemma_parts_written_append(start, cap, d7 + p8, rest8);
        }
        match self.unknown_fields.write_to(output) {
            Ok(()) => {},
            Err(e) => return Err(e),
        }
        let ghost d8 = d7 + p8;
        proof {
            assert(all =~= d8 + Seq::<(bool, Seq<u8>)>::empty());
            assert(all == d8);
            lemma_ok_unit(parts_written(start, cap, all).1);
        }
        Ok(())
    }

    /// Reads the value of the field whose tag value `t` was just read into the message.
    #[verifier::spinoff_prover]
    fn merge_field(&mut self, t: u32, input: &mut CodedReader) -> (r: ReadResult<()>)
        ensures
            match field_options_field_read(old(self)@, t, old(input).available(), old(input).depth(), old(input).recursion_limit(), skips(*old(input)), old(input).end_group_view()) {
                Ok((m, v2)) => r is Ok && final(self)@ == v2 && m >= 0 && final(input).position()
                    == old(input).position() + m && same_state(*old(input), *final(input)),
                Err(e) => r == Err::<(), ReadError>(e) && same_config(*old(input), *final(input)),
            },
    {
        let rem0 = input.remaining();
        let ghost rest = input.available();
        if t == 8u32 {
            proof {
                <raw::Enum<field_options::CType> as Value>::lemma_decoding_len(rest);
            }
            input.set_last_tag(Some(Tag::new(FieldNumber::new_unchecked(1), WireType::Varint)));
            match <raw::Enum<field_options::CType> as Value>::merge_from(self.ctype.get_or_insert(CType(0)), input) {
                Ok(()) => {},
                Err(e) => return Err(e),
            }
        } else if t == 16u32 {
            proof {
                <raw::Bool as Value>::lemma_decoding_len(rest);
            }
            input.set_last_tag(Some(Tag::new(FieldNumber::new_unchecked(2), WireType::Varint)));
            match <raw::Bool as Value>::merge_from(self.packed.get_or_insert(false), input) {
                Ok(()) => {},
                Err(e) => return Err(e),
            }
        } else if t == 24u32 {
            proof {
                <raw::Bool as Value>::lemma_decoding_len(rest);
            }
            input.set_last_tag(Some(Tag::new(FieldNumber::new_unchecked(3), WireType::Varint)));
            match <raw::Bool as Value>::merge_from(self.deprecated.get_or_insert(false), input) {
                Ok(()) => {},
                Err(e) => return Err(e),
            }
        } else if t == 40u32 {
            proof {
                <raw::Bool as Value>::lemma_decoding_len(rest);
            }
            input.set_last_tag(Some(Tag::new(FieldNumber::new_unchecked(5), WireType::Varint)));
            match <raw::Bool as Value>::merge_from(self.lazy.get_or_insert(false), input) {
                Ok(()) => {},
                Err(e) => return Err(e),
            }
        } else if t == 48u32 {
            proof {
                <raw::Enum<field_options::JSType> as Value>::lemma_decoding_len(rest);
            }
            input.set_last_tag(Some(Tag::new(FieldNumber::new_unchecked(6), WireType::Varint)));
            match <raw::Enum<field_options::JSType> as Value>::merge_from(self.jstype.get_or_insert(JSType(0)), input) {
                Ok(()) => {},
                Err(e) => return Err(e),
            }
        } else if t == 80u32 {
            proof {
                <raw::Bool as Value>::lemma_decoding_len(rest);
            }
            input.set_last_tag(Some(Tag::new(FieldNumber::new_unchecked(10), WireType::Varint)));
            match <raw::Bool as Value>::merge_from(self.weak.get_or_insert(false), input) {
                Ok(()) => {},
                Err(e) => return Err(e),
            }
        } else if t == 7994u32 {
            proof {
                lemma_length_delimited_read_len(rest);
            }
            input.set_last_tag(Some(Tag::new(FieldNumber::new_unchecked(999), WireType::LengthDelimited)));
            let mut y = UninterpretedOption::default();
            match merge_uninterpreted_option_delimited(&mut y, input) {
                Ok(()) => {},
                Err(e) => return Err(e),
            }
            let ghost old_values = self.uninterpreted_option@;
            self.uninterpreted_option.push(y);
            proof {
                assert(self.uninterpreted_option@.subrange(0, self.uninterpreted_option@.len() - 1) =~= old_values);
            }
        } else {
            let tag = match Tag::try_from(t) {
                Ok(tag) => tag,
                Err(_) => return Err(ReadError::InvalidTag(t)),
            };
            input.set_last_tag(Some(tag));
            match self.unknown_fields.try_add_field_from(input) {
                Ok(TryRead::Consumed) => {},
                Ok(TryRead::Yielded) => match input.skip() {
                    Ok(()) => {},
                    Err(e) => return Err(e),
                },
                Err(e) => return Err(e),
            }
        }
        let rem1 = input.remaining();
        Ok(())
    }

    /// Merges the message with fields read from the reader, up to its limit. Scalar fields
    /// read replace those set, message fields are merged, repeated fields are added to,
    /// and unknown fields are stored or skipped as the reader says. On an error the message
    /// may hold some of the fields read before it.
    #[verifier::spinoff_prover]
    #[verifier::rlimit(50)]
    pub fn merge_from(&mut self, input: &mut CodedReader) -> (r: ReadResult<()>)
        ensures
            merge_outcome(field_options_merged(old(self)@, old(input).available(), old(input).depth(), old(input).recursion_limit(), skips(*old(input)), old(input).end_group_view()), final(self)@, *old(input), *final(input), r),
    {
        let rem0 = input.remaining();
        let ghost start = *input;
        let ghost total = field_options_merged(self@, input.available(), input.depth(), input.recursion_limit(), skips(*input), input.end_group_view());
        loop
            invariant
                start == *old(input),
                same_state(start, *input),
                0 <= start.position() <= input.position(),
                input.limit_end() <= input.input().len(),
                total == field_options_merged(old(self)@, start.available(), start.depth(), start.recursion_limit(), skips(start), start.end_group_view()),
                total == field_options_merged(self@, input.available(), start.depth(), start.recursion_limit(), skips(start), start.end_group_view()),
            decreases input.available().len(),
        {
            let ghost s = input.available();
            let ghost before = *input;
            let ghost v = self@;
            let t = match input.read_field() {
                Ok(Some(t)) => t,
                Ok(None) => return Ok(()),
                Err(e) => return Err(e),
            };
            let rem1 = input.remaining();
            let ghost n = input.position() - before.position();
            proof {
                lemma_varint_read_len(s);
                assert(input.available() =~= s.skip(n));
            }
            let ghost mid = *input;
            match self.merge_field(t, input) {
                Ok(()) => {},
                Err(e) => return Err(e),
            }
            let rem2 = input.remaining();
            proof {
                let m = input.position() - mid.position();
                assert(input.available() =~= s.skip(n + m));
            }
        }
    }
}

impl crate::Message for FieldOptions {
    open spec fn merged(v: FieldOptionsView, s: Seq<u8>, depth: nat, limit: nat, skip: bool, eg: Option<Tag>) -> ReadResult<FieldOptionsView> {
        field_options_merged(v, s, depth, limit, skip, eg)
    }

    open spec fn parts(v: FieldOptionsView) -> Seq<(bool, Seq<u8>)> {
        field_options_parts(v)
    }

    open spec fn initialized(v: FieldOptionsView) -> bool {
        true
    }

    open spec fn unknown_fields_of(v: FieldOptionsView) -> Seq<(u32, Seq<FieldValue>)> {
        v.unknown_fields
    }

    open spec fn with_unknown_fields(v: FieldOptionsView, u: Seq<(u32, Seq<FieldValue>)>) -> FieldOptionsView {
        FieldOptionsView { unknown_fields: u, ..v }
    }

    fn merge_from(&mut self, input: &mut CodedReader) -> (r: ReadResult<()>) {
        FieldOptions::merge_from(self, input)
    }

    fn calculate_size(&self) -> (r: Option<Length>) {
        FieldOptions::calculate_size(self)
    }

    fn write_to(&self, output: &mut CodedWriter) -> (r: WriteResult) {
        FieldOptions::write_to(self, output)
    }

    fn is_initialized(&self) -> (r: bool) {
        FieldOptions::is_initialized(self)
    }

    fn unknown_fields(&self) -> (r: &UnknownFieldSet) {
        FieldOptions::unknown_fields(self)
    }

    fn unknown_fields_mut(&mut self) -> (r: &mut UnknownFieldSet) {
        FieldOptions::unknown_fields_mut(self)
    }
}

impl DebugMessage for FieldOptions {
    open spec fn spec_full_name() -> Seq<char> {
        "google.protobuf.FieldOptions"@
    }

    open spec fn spec_name() -> Seq<char> {
        "FieldOptions"@
    }

    fn full_name() -> (r: &'static str) {
        "google.protobuf.FieldOptions"
    }

    fn name() -> (r: &'static str) {
        "FieldOptions"
    }
}

/// Whether `t` is the tag of a field a `FieldOptions` reads.
pub open spec fn field_options_known_tag(t: u32) -> bool {
    t == 8u32 || t == 16u32 || t == 24u32 || t == 40u32 || t == 48u32 || t == 80u32 || t == 7994u32
}

/// Whether a `FieldOptions` is read back as it is written, at nesting depth `depth` of a reader with
/// recursion limit `limit`: its messages are read back as written one level deeper, within
/// the limit; and its unknown fields are read back as written, none with the tag of one of
/// its fields.
pub open spec fn field_options_roundtrips(v: FieldOptionsView, depth: nat, limit: nat) -> bool
{
    &&& (v.uninterpreted_option.len() > 0 ==> depth < limit)
    &&& forall|i: int| 0 <= i < v.uninterpreted_option.len() ==> uninterpreted_option_roundtrips(#[trigger] v.uninterpreted_option[i], depth + 1, limit)
    &&& set_readable(v.unknown_fields)
    &&& forall|k: int| 0 <= k < set_pairs(v.unknown_fields).len() ==> !field_options_known_tag(tag_value(
        #[trigger] set_pairs(v.unknown_fields)[k].0,
        field_value_wire_type(set_pairs(v.unknown_fields)[k].1),
    ))
}

/// Reading a `FieldOptions` field whose tag is read from the front of `s` and whose value is read after
/// it continues with the rest of `s`.
proof fn lemma_field_options_step(v: FieldOptionsView, s: Seq<u8>, k: int, t: u32, m: int, v2: FieldOptionsView, depth: nat, limit: nat)
    requires
        varint_read(s) == Ok::<(int, u64), ReadError>((k, t as u64)),
        1 <= k <= s.len(),
        field_options_field_read(v, t, s.skip(k), depth, limit, false, None) == Ok::<(int, FieldOptionsView), ReadError>((m, v2)),
        0 <= m,
        k + m <= s.len(),
    ensures
        field_options_merged(v, s, depth, limit, false, None) == field_options_merged(v2, s.skip(k + m), depth, limit, false, None),
{
    assert((t as u64) as u32 == t);
}

/// Reading the entries of `UninterpretedOption` values written as field `uninterpreted_option` of a `FieldOptions` adds the values.
#[verifier::spinoff_prover]
#[verifier::rlimit(60)]
proof fn lemma_field_options_read_uninterpreted_option(v: FieldOptionsView, ys: Seq<UninterpretedOptionView>, rest: Seq<u8>, depth: nat, limit: nat)
    requires
        parts_encodable(uninterpreted_option_seq_parts(999u32, ys)),
        ys.len() > 0 ==> depth < limit,
        forall|i: int| 0 <= i < ys.len() ==> uninterpreted_option_roundtrips(#[trigger] ys[i], depth + 1, limit),
    ensures
        field_options_merged(v, parts_bytes(uninterpreted_option_seq_parts(999u32, ys)) + rest, depth, limit, false, None) == field_options_merged(
            FieldOptionsView { uninterpreted_option: v.uninterpreted_option + ys, ..v },
            rest,
            depth, limit, false, None,
        ),
    decreases ys.len(),
{
    if ys.len() == 0 {
        assert(parts_bytes(uninterpreted_option_seq_parts(999u32, ys)) + rest =~= rest);
        assert(v.uninterpreted_option + ys =~= v.uninterpreted_option);
    } else {
        let y = ys[0];
        let tail = ys.drop_first();
        assert forall|i: int| 0 <= i < tail.len() implies uninterpreted_option_roundtrips(#[trigger] tail[i], depth + 1, limit) by {
            assert(tail[i] == ys[i + 1]);
        }
        lemma_uninterpreted_option_seq_parts_front(999u32, ys);
        let ep = entry_parts(999u32, uninterpreted_option_parts(y));
        lemma_parts_encodable_two(ep, uninterpreted_option_seq_parts(999u32, tail));
        lemma_parts_bytes_append(ep, uninterpreted_option_seq_parts(999u32, tail));
        assert(ep[1].0);
        let after = parts_bytes(uninterpreted_option_seq_parts(999u32, tail)) + rest;
        let s = parts_bytes(uninterpreted_option_seq_parts(999u32, ys)) + rest;
        assert(s =~= parts_bytes(ep) + after);
        lemma_entry_bytes_read(999u32, uninterpreted_option_parts(y), after);
        lemma_tag_value(999u32, WireType::LengthDelimited);
        lemma_uninterpreted_option_roundtrip(y, depth + 1, limit);
        let hl = parts_bytes(ep).len() as int;
        let k = varint_len(7994u64) as int;
        let v2 = FieldOptionsView { uninterpreted_option: v.uninterpreted_option.push(y), ..v };
        lemma_field_options_step(v, s, k, 7994u32, hl - k, v2, depth, limit);
        lemma_field_options_read_uninterpreted_option(v2, tail, rest, depth, limit);
        assert(v.uninterpreted_option.push(y) + tail =~= v.uninterpreted_option + ys);
    }
}

/// Reading the field `ctype` of a `FieldOptions` written from `o` sets it to `o`, whatever it held; nothing
/// is written, and nothing changes, for `None`.
proof fn lemma_field_options_read_ctype(d: FieldOptionsView, o: Option<i32>, rest: Seq<u8>, depth: nat, limit: nat)
    requires
        parts_encodable(opt_field_parts::<raw::Enum<field_options::CType>>(1u32, o)),
    ensures
        field_options_merged(d, parts_bytes(opt_field_parts::<raw::Enum<field_options::CType>>(1u32, o)) + rest, depth, limit, false, None) == field_options_merged(if o is Some { FieldOptionsView { ctype: o, ..d } } else { d }, rest, depth, limit, false, None),
{
    match o {
        None => {
            assert(parts_bytes(opt_field_parts::<raw::Enum<field_options::CType>>(1u32, o)) + rest =~= rest);
        },
        Some(x) => {
            let p = field_parts::<raw::Enum<field_options::CType>>(1u32, x);
            assert(p[1].0);
            let s = parts_bytes(p) + rest;
            lemma_field_bytes_read::<raw::Enum<field_options::CType>>(1u32, x, rest);
            lemma_tag_value(1u32, WireType::Varint);
            let hl = parts_bytes(p).len() as int;
            let k = varint_len(8u64) as int;
            let v2 = FieldOptionsView { ctype: Some(x), ..d };
            lemma_field_options_step(d, s, k, 8u32, hl - k, v2, depth, limit);
        },
    }
}

/// Reading the field `packed` of a `FieldOptions` written from `o` sets it to `o`, whatever it held; nothing
/// is written, and nothing changes, for `None`.
proof fn lemma_field_options_read_packed(d: FieldOptionsView, o: Option<bool>, rest: Seq<u8>, depth: nat, limit: nat)
    requires
        parts_encodable(opt_field_parts::<raw::Bool>(2u32, o)),
    ensures
        field_options_merged(d, parts_bytes(opt_field_parts::<raw::Bool>(2u32, o)) + rest, depth, limit, false, None) == field_options_merged(if o is Some { FieldOptionsView { packed: o, ..d } } else { d }, rest, depth, limit, false, None),
{
    match o {
        None => {
            assert(parts_bytes(opt_field_parts::<raw::Bool>(2u32, o)) + rest =~= rest);
        },
        Some(x) => {
            let p = field_parts::<raw::Bool>(2u32, x);
            assert(p[1].0);
            let s = parts_bytes(p) + rest;
            lemma_field_bytes_read::<raw::Bool>(2u32, x, rest);
            lemma_tag_value(2u32, WireType::Varint);
            let hl = parts_bytes(p).len() as int;
            let k = varint_len(16u64) as int;
            let v2 = FieldOptionsView { packed: Some(x), ..d };
            lemma_field_options_step(d, s, k, 16u32, hl - k, v2, depth, limit);
        },
    }
}

/// Reading the field `jstype` of a `FieldOptions` written from `o` sets it to `o`, whatever it held; nothing
/// is written, and nothing changes, for `None`.
proof fn lemma_field_options_read_jstype(d: FieldOptionsView, o: Option<i32>, rest: Seq<u8>, depth: nat, limit: nat)
    requires
        parts_encodable(opt_field_parts::<raw::Enum<field_options::JSType>>(6u32, o)),
    ensures
        field_options_merged(d, parts_bytes(opt_field_parts::<raw::Enum<field_options::JSType>>(6u32, o)) + rest, depth, limit, false, None) == field_options_merged(if o is Some { FieldOptionsView { jstype: o, ..d } } else { d }, rest, depth, limit, false, None),
{
    match o {
        None => {
            assert(parts_bytes(opt_field_parts::<raw::Enum<field_options::JSType>>(6u32, o)) + rest =~= rest);
        },
        Some(x) => {
            let p = field_parts::<raw::Enum<field_options::JSType>>(6u32, x);
            assert(p[1].0);
            let s = parts_bytes(p) + rest;
            lemma_field_bytes_read::<raw::Enum<field_options::JSType>>(6u32, x, rest);
            lemma_tag_value(6u32, WireType::Varint);
            let hl = parts_bytes(p).len() as int;
            let k = varint_len(48u64) as int;
            let v2 = FieldOptionsView { jstype: Some(x), ..d };
            lemma_field_options_step(d, s, k, 48u32, hl - k, v2, depth, limit);
        },
    }
}

/// Reading the field `lazy` of a `FieldOptions` written from `o` sets it to `o`, whatever it held; nothing
/// is written, and nothing changes, for `None`.
proof fn lemma_field_options_read_lazy(d: FieldOptionsView, o: Option<bool>, rest: Seq<u8>, depth: nat, limit: nat)
    requires
        parts_encodable(opt_field_parts::<raw::Bool>(5u32, o)),
    ensures
        field_options_merged(d, parts_bytes(opt_field_parts::<raw::Bool>(5u32, o)) + rest, depth, limit, false, None) == field_options_merged(if o is Some { FieldOptionsView { lazy: o, ..d } } else { d }, rest, depth, limit, false, None),
{
    match o {
        None => {
            assert(parts_bytes(opt_field_parts::<raw::Bool>(5u32, o)) + rest =~= rest);
        },
        Some(x) => {
            let p = field_parts::<raw::Bool>(5u32, x);
            assert(p[1].0);
            let s = parts_bytes(p) + rest;
            lemma_field_bytes_read::<raw::Bool>(5u32, x, rest);
            lemma_tag_value(5u32, WireType::Varint);
            let hl = parts_bytes(p).len() as int;
            let k = varint_len(40u64) as int;
            let v2 = FieldOptionsView { lazy: Some(x), ..d };
            lemma_field_options_step(d, s, k, 40u32, hl - k, v2, depth, limit);
        },
    }
}

/// Reading the field `deprecated` of a `FieldOptions` written from `o` sets it to `o`, whatever it held; nothing
/// is written, and nothing changes, for `None`.
proof fn lemma_field_options_read_deprecated(d: FieldOptionsView, o: Option<bool>, rest: Seq<u8>, depth: nat, limit: nat)
    requires
        parts_encodable(opt_field_parts::<raw::Bool>(3u32, o)),
    ensures
        field_options_merged(d, parts_bytes(opt_field_parts::<raw::Bool>(3u32, o)) + rest, depth, limit, false, None) == field_options_merged(if o is Some { FieldOptionsView { deprecated: o, ..d } } else { d }, rest, depth, limit, false, None),
{
    match o {
        None => {
            assert(parts_bytes(opt_field_parts::<raw::Bool>(3u32, o)) + rest =~= rest);
        },
        Some(x) => {
            let p = field_parts::<raw::Bool>(3u32, x);
            assert(p[1].0);
            let s = parts_bytes(p) + rest;
            lemma_field_bytes_read::<raw::Bool>(3u32, x, rest);
            lemma_tag_value(3u32, WireType::Varint);
            let hl = parts_bytes(p).len() as int;
            let k = varint_len(24u64) as int;
            let v2 = FieldOptionsView { deprecated: Some(x), ..d };
            lemma_field_options_step(d, s, k, 24u32, hl - k, v2, depth, limit);
        },
    }
}

/// Reading the field `weak` of a `FieldOptions` written from `o` sets it to `o`, whatever it held; nothing
/// is written, and nothing changes, for `None`.
proof fn lemma_field_options_read_weak(d: FieldOptionsView, o: Option<bool>, rest: Seq<u8>, depth: nat, limit: nat)
    requires
        parts_encodable(opt_field_parts::<raw::Bool>(10u32, o)),
    ensures
        field_options_merged(d, parts_bytes(opt_field_parts::<raw::Bool>(10u32, o)) + rest, depth, limit, false, None) == field_options_merged(if o is Some { FieldOptionsView { weak: o, ..d } } else { d }, rest, depth, limit, false, None),
{
    match o {
        None => {
            assert(parts_bytes(opt_field_parts::<raw::Bool>(10u32, o)) + rest =~= rest);
        },
        Some(x) => {
            let p = field_parts::<raw::Bool>(10u32, x);
            assert(p[1].0);
            let s = parts_bytes(p) + rest;
            lemma_field_bytes_read::<raw::Bool>(10u32, x, rest);
            lemma_tag_value(10u32, WireType::Varint);
            let hl = parts_bytes(p).len() as int;
            let k = varint_len(80u64) as int;
            let v2 = FieldOptionsView { weak: Some(x), ..d };
            lemma_field_options_step(d, s, k, 80u32, hl - k, v2, depth, limit);
        },
    }
}

/// Reading unknown field values written one after the other into a `FieldOptions`, none with the tag
/// of one of its fields, adds them to its unknown fields.
proof fn lemma_field_options_read_unknown(v: FieldOptionsView, ps: Seq<(u32, FieldValue)>, rest: Seq<u8>, depth: nat, limit: nat)
    requires
        forall|k: int| 0 <= k < ps.len() ==> value_readable(#[trigger] ps[k].0, ps[k].1) && !field_options_known_tag(
            tag_value(ps[k].0, field_value_wire_type(ps[k].1)),
        ),
    ensures
        field_options_merged(v, parts_bytes(pairs_parts(ps)) + rest, depth, limit, false, None) == field_options_merged(
            FieldOptionsView { unknown_fields: push_pairs(v.unknown_fields, ps), ..v },
            rest,
            depth, limit, false, None,
        ),
    decreases ps.len(),
{
    if ps.len() == 0 {
        assert(parts_bytes(pairs_parts(ps)) + rest =~= rest);
    } else {
        let n = ps[0].0;
        let fv = ps[0].1;
        let tail = ps.drop_first();
        assert forall|k: int| 0 <= k < tail.len() implies value_readable(#[trigger] tail[k].0, tail[k].1) && !field_options_known_tag(
            tag_value(tail[k].0, field_value_wire_type(tail[k].1)),
        ) by {
            assert(tail[k] == ps[k + 1]);
        }
        assert(value_readable(ps[0].0, ps[0].1));
        lemma_parts_bytes_append(field_value_parts(n, fv), pairs_parts(tail));
        let after = parts_bytes(pairs_parts(tail)) + rest;
        let s = parts_bytes(pairs_parts(ps)) + rest;
        assert(s =~= parts_bytes(field_value_parts(n, fv)) + after);
        lemma_read_value_bytes(n, fv, after);
        let t = tag_value(n, field_value_wire_type(fv));
        let hl = parts_bytes(field_value_parts(n, fv)).len() as int;
        let k = varint_len(t as u64) as int;
        let v2 = FieldOptionsView { unknown_fields: view_push(v.unknown_fields, n, fv), ..v };
        lemma_field_options_step(v, s, k, t, hl - k, v2, depth, limit);
        lemma_field_options_read_unknown(v2, tail, rest, depth, limit);
    }
}

/// The writability of the parts of a `FieldOptions` is that of each field's parts.
proof fn lemma_field_options_parts_encodable(v: FieldOptionsView)
    ensures
        parts_encodable(field_options_parts(v)) == (parts_encodable(opt_field_parts::<raw::Enum<field_options::CType>>(1u32, v.ctype)) && parts_encodable(opt_field_parts::<raw::Bool>(2u32, v.packed)) && parts_encodable(opt_field_parts::<raw::Bool>(3u32, v.deprecated)) && parts_encodable(opt_field_parts::<raw::Bool>(5u32, v.lazy)) && parts_encodable(opt_field_parts::<raw::Enum<field_options::JSType>>(6u32, v.jstype)) && parts_encodable(opt_field_parts::<raw::Bool>(10u32, v.weak)) && parts_encodable(uninterpreted_option_seq_parts(999u32, v.uninterpreted_option)) && parts_encodable(set_parts(v.unknown_fields))),
{
    reveal(field_options_parts);
    let p0 = opt_field_parts::<raw::Enum<field_options::CType>>(1u32, v.ctype);
    let p1 = opt_field_parts::<raw::Bool>(2u32, v.packed);
    let p2 = opt_field_parts::<raw::Bool>(3u32, v.deprecated);
    let p3 = opt_field_parts::<raw::Bool>(5u32, v.lazy);
    let p4 = opt_field_parts::<raw::Enum<field_options::JSType>>(6u32, v.jstype);
    let p5 = opt_field_parts::<raw::Bool>(10u32, v.weak);
    let p6 = uninterpreted_option_seq_parts(999u32, v.uninterpreted_option);
    let p7 = set_parts(v.unknown_fields);
    let q7 = p7;
    let q6 = p6 + q7;
    lemma_parts_encodable_two(p6, q7);
    let q5 = p5 + q6;
    lemma_parts_encodable_two(p5, q6);
    let q4 = p4 + q5;
    lemma_parts_encodable_two(p4, q5);
    let q3 = p3 + q4;
    lemma_parts_encodable_two(p3, q4);
    let q2 = p2 + q3;
    lemma_parts_encodable_two(p2, q3);
    let q1 = p1 + q2;
    lemma_parts_encodable_two(p1, q2);
    let q0 = p0 + q1;
    lemma_parts_encodable_two(p0, q1);
    assert(field_options_parts(v) == q0);
}

/// The bytes of the parts of a `FieldOptions` are those of each field's parts, one after the other.
proof fn lemma_field_options_parts_bytes(v: FieldOptionsView)
    ensures
        parts_bytes(field_options_parts(v)) == parts_bytes(opt_field_parts::<raw::Enum<field_options::CType>>(1u32, v.ctype)) + (parts_bytes(opt_field_parts::<raw::Bool>(2u32, v.packed)) + (parts_bytes(opt_field_parts::<raw::Bool>(3u32, v.deprecated)) + (parts_bytes(opt_field_parts::<raw::Bool>(5u32, v.lazy)) + (parts_bytes(opt_field_parts::<raw::Enum<field_options::JSType>>(6u32, v.jstype)) + (parts_bytes(opt_field_parts::<raw::Bool>(10u32, v.weak)) + (parts_bytes(uninterpreted_option_seq_parts(999u32, v.uninterpreted_option)) + parts_bytes(set_parts(v.unknown_fields)))))))),
{
    reveal(field_options_parts);
    let p0 = opt_field_parts::<raw::Enum<field_options::CType>>(1u32, v.ctype);
    let p1 = opt_field_parts::<raw::Bool>(2u32, v.packed);
    let p2 = opt_field_parts::<raw::Bool>(3u32, v.deprecated);
    let p3 = opt_field_parts::<raw::Bool>(5u32, v.lazy);
    let p4 = opt_field_parts::<raw::Enum<field_options::JSType>>(6u32, v.jstype);
    let p5 = opt_field_parts::<raw::Bool>(10u32, v.weak);
    let p6 = uninterpreted_option_seq_parts(999u32, v.uninterpreted_option);
    let p7 = set_parts(v.unknown_fields);
    let q7 = p7;
    let q6 = p6 + q7;
    lemma_parts_bytes_append(p6, q7);
    let q5 = p5 + q6;
    lemma_parts_bytes_append(p5, q6);
    let q4 = p4 + q5;
    lemma_parts_bytes_append(p4, q5);
    let q3 = p3 + q4;
    lemma_parts_bytes_append(p3, q4);
    let q2 = p2 + q3;
    lemma_parts_bytes_append(p2, q3);
    let q1 = p1 + q2;
    lemma_parts_bytes_append(p1, q2);
    let q0 = p0 + q1;
    lemma_parts_bytes_append(p0, q1);
    assert(field_options_parts(v) == q0);
}

/// The message a `FieldOptions` `d` becomes when `v` is merged into it: each field `v` holds once
/// replaces the one `d` holds, the values of each repeated field of `v` follow those of `d`,
/// and the unknown fields of `v` are added to those of `d`, field number by field number.
pub open spec fn field_options_merge_view(d: FieldOptionsView, v: FieldOptionsView) -> FieldOptionsView {
    FieldOptionsView { ctype: newer_or(v.ctype, d.ctype), packed: newer_or(v.packed, d.packed), jstype: newer_or(v.jstype, d.jstype), lazy: newer_or(v.lazy, d.lazy), deprecated: newer_or(v.deprecated, d.deprecated), weak: newer_or(v.weak, d.weak), uninterpreted_option: d.uninterpreted_option + v.uninterpreted_option, unknown_fields: view_merge(d.unknown_fields, v.unknown_fields) }
}

/// Reading the bytes of the parts of a `FieldOptions` `v`, field by field, into `d` merges `v` into `d`.
#[verifier::spinoff_prover]
#[verifier::rlimit(60)]
proof fn lemma_field_options_merge_all(d: FieldOptionsView, v: FieldOptionsView, depth: nat, limit: nat)
    requires
        parts_encodable(opt_field_parts::<raw::Enum<field_options::CType>>(1u32, v.ctype)),
        parts_encodable(opt_field_parts::<raw::Bool>(2u32, v.packed)),
        parts_encodable(opt_field_parts::<raw::Bool>(3u32, v.deprecated)),
        parts_encodable(opt_field_parts::<raw::Bool>(5u32, v.lazy)),
        parts_encodable(opt_field_parts::<raw::Enum<field_options::JSType>>(6u32, v.jstype)),
        parts_encodable(opt_field_parts::<raw::Bool>(10u32, v.weak)),
        parts_encodable(uninterpreted_option_seq_parts(999u32, v.uninterpreted_option)),
        field_options_roundtrips(v, depth, limit),
        parts_bytes(field_options_parts(v)) == parts_bytes(opt_field_parts::<raw::Enum<field_options::CType>>(1u32, v.ctype)) + (parts_bytes(opt_field_parts::<raw::Bool>(2u32, v.packed)) + (parts_bytes(opt_field_parts::<raw::Bool>(3u32, v.deprecated)) + (parts_bytes(opt_field_parts::<raw::Bool>(5u32, v.lazy)) + (parts_bytes(opt_field_parts::<raw::Enum<field_options::JSType>>(6u32, v.jstype)) + (parts_bytes(opt_field_parts::<raw::Bool>(10u32, v.weak)) + (parts_bytes(uninterpreted_option_seq_parts(999u32, v.uninterpreted_option)) + parts_bytes(set_parts(v.unknown_fields)))))))),
    ensures
        field_options_merged(d, parts_bytes(field_options_parts(v)), depth, limit, false, None) == Ok::<FieldOptionsView, ReadError>(field_options_merge_view(d, v)),
{
    let p0 = opt_field_parts::<raw::Enum<field_options::CType>>(1u32, v.ctype);
    let p1 = opt_field_parts::<raw::Bool>(2u32, v.packed);
    let p2 = opt_field_parts::<raw::Bool>(3u32, v.deprecated);
    let p3 = opt_field_parts::<raw::Bool>(5u32, v.lazy);
    let p4 = opt_field_parts::<raw::Enum<field_options::JSType>>(6u32, v.jstype);
    let p5 = opt_field_parts::<raw::Bool>(10u32, v.weak);
    let p6 = uninterpreted_option_seq_parts(999u32, v.uninterpreted_option);
    let p7 = set_parts(v.unknown_fields);
    let b0 = parts_bytes(p0);
    let b1 = parts_bytes(p1);
    let b2 = parts_bytes(p2);
    let b3 = parts_bytes(p3);
    let b4 = parts_bytes(p4);
    let b5 = parts_bytes(p5);
    let b6 = parts_bytes(p6);
    let b7 = parts_bytes(p7);
    let r7 = b7;
    let r6 = b6 + r7;
    let r5 = b5 + r6;
    let r4 = b4 + r5;
    let r3 = b3 + r4;
    let r2 = b2 + r3;
    let r1 = b1 + r2;
    let r0 = b0 + r1;
    let d0 = d;
    let d1 = FieldOptionsView { ctype: newer_or(v.ctype, d.ctype), ..d0 };
    assert(field_options_merged(d0, r0, depth, limit, false, None) == field_options_merged(d1, r1, depth, limit, false, None)) by {
        lemma_field_options_read_ctype(d0, v.ctype, r1, depth, limit);
        assert((if v.ctype is Some { FieldOptionsView { ctype: v.ctype, ..d0 } } else { d0 }) == d1);
    }
    let d2 = FieldOptionsView { packed: newer_or(v.packed, d.packed), ..d1 };
    assert(field_options_merged(d1, r1, depth, limit, false, None) == field_options_merged(d2, r2, depth, limit, false, None)) by {
        lemma_field_options_read_packed(d1, v.packed, r2, depth, limit);
        assert((if v.packed is Some { FieldOptionsView { packed: v.packed, ..d1 } } else { d1 }) == d2);
    }
    let d3 = FieldOptionsView { deprecated: newer_or(v.deprecated, d.deprecated), ..d2 };
    assert(field_options_merged(d2, r2, depth, limit, false, None) == field_options_merged(d3, r3, depth, limit, false, None)) by {
        lemma_field_options_read_deprecated(d2, v.deprecated, r3, depth, limit);
        assert((if v.deprecated is Some { FieldOptionsView { deprecated: v.deprecated, ..d2 } } else { d2 }) == d3);
    }
    let d4 = FieldOptionsView { lazy: newer_or(v.lazy, d.lazy), ..d3 };
    assert(field_options_merged(d3, r3, depth, limit, false, None) == field_options_merged(d4, r4, depth, limit, false, None)) by {
        lemma_field_options_read_lazy(d3, v.lazy, r4, depth, limit);
        assert((if v.lazy is Some { FieldOptionsView { lazy: v.lazy, ..d3 } } else { d3 }) == d4);
    }
    let d5 = FieldOptionsView { jstype: newer_or(v.jstype, d.jstype), ..d4 };
    assert(field_options_merged(d4, r4, depth, limit, false, None) == field_options_merged(d5, r5, depth, limit, false, None)) by {
        lemma_field_options_read_jstype(d4, v.jstype, r5, depth, limit);
        assert((if v.jstype is Some { FieldOptionsView { jstype: v.jstype, ..d4 } } else { d4 }) == d5);
    }
    let d6 = FieldOptionsView { weak: newer_or(v.weak, d.weak), ..d5 };
    assert(field_options_merged(d5, r5, depth, limit, false, None) == field_options_merged(d6, r6, depth, limit, false, None)) by {
        lemma_field_options_read_weak(d5, v.weak, r6, depth, limit);
        assert((if v.weak is Some { FieldOptionsView { weak: v.weak, ..d5 } } else { d5 }) == d6);
    }
    let d7 = FieldOptionsView { uninterpreted_option: d.uninterpreted_option + v.uninterpreted_option, ..d6 };
    assert(field_options_merged(d6, r6, depth, limit, false, None) == field_options_merged(d7, r7, depth, limit, false, None)) by {
        lemma_field_options_read_uninterpreted_option(d6, v.uninterpreted_option, r7, depth, limit);
        assert(FieldOptionsView { uninterpreted_option: d6.uninterpreted_option + v.uninterpreted_option, ..d6 } == d7);
    }
    let ps = set_pairs(v.unknown_fields);
    assert(field_options_merged(d7, r7, depth, limit, false, None) == Ok::<FieldOptionsView, ReadError>(field_options_merge_view(d, v))) by {
        lemma_set_pairs(v.unknown_fields, d.unknown_fields);
        lemma_entries_readable(v.unknown_fields);
        assert forall|k: int| 0 <= k < ps.len() implies value_readable(#[trigger] ps[k].0, ps[k].1) && !field_options_known_tag(
            tag_value(ps[k].0, field_value_wire_type(ps[k].1)),
        ) by {
            assert(!field_options_known_tag(tag_value(set_pairs(v.unknown_fields)[k].0, field_value_wire_type(set_pairs(v.unknown_fields)[k].1))));
        }
        lemma_field_options_read_unknown(d7, ps, Seq::empty(), depth, limit);
        assert(b7 + Seq::<u8>::empty() =~= b7);
        let dl = FieldOptionsView { unknown_fields: push_pairs(d7.unknown_fields, ps), ..d7 };
        assert(dl == field_options_merge_view(d, v));
    }
}

/// Reading the bytes of the parts of a `FieldOptions`, field by field, gives the message back.
proof fn lemma_field_options_read_all(v: FieldOptionsView, depth: nat, limit: nat)
    requires
        parts_encodable(opt_field_parts::<raw::Enum<field_options::CType>>(1u32, v.ctype)),
        parts_encodable(opt_field_parts::<raw::Bool>(2u32, v.packed)),
        parts_encodable(opt_field_parts::<raw::Bool>(3u32, v.deprecated)),
        parts_encodable(opt_field_parts::<raw::Bool>(5u32, v.lazy)),
        parts_encodable(opt_field_parts::<raw::Enum<field_options::JSType>>(6u32, v.jstype)),
        parts_encodable(opt_field_parts::<raw::Bool>(10u32, v.weak)),
        parts_encodable(uninterpreted_option_seq_parts(999u32, v.uninterpreted_option)),
        field_options_roundtrips(v, depth, limit),
        parts_bytes(field_options_parts(v)) == parts_bytes(opt_field_parts::<raw::Enum<field_options::CType>>(1u32, v.ctype)) + (parts_bytes(opt_field_parts::<raw::Bool>(2u32, v.packed)) + (parts_bytes(opt_field_parts::<raw::Bool>(3u32, v.deprecated)) + (parts_bytes(opt_field_parts::<raw::Bool>(5u32, v.lazy)) + (parts_bytes(opt_field_parts::<raw::Enum<field_options::JSType>>(6u32, v.jstype)) + (parts_bytes(opt_field_parts::<raw::Bool>(10u32, v.weak)) + (parts_bytes(uninterpreted_option_seq_parts(999u32, v.uninterpreted_option)) + parts_bytes(set_parts(v.unknown_fields)))))))),
    ensures
        field_options_merged(field_options_default(), parts_bytes(field_options_parts(v)), depth, limit, false, None) == Ok::<FieldOptionsView, ReadError>(v),
{
    lemma_field_options_merge_all(field_options_default(), v, depth, limit);
    lemma_entries_readable(v.unknown_fields);
    lemma_merge_into_empty(v.unknown_fields);
    assert(Seq::empty() + v.uninterpreted_option =~= v.uninterpreted_option);
    assert(field_options_merge_view(field_options_default(), v) == v);
}

/// Merging what a `FieldOptions` `v` writes into a message `d` merges `v` into `d`: each field `v`
/// holds replaces the one `d` holds, repeated values follow those `d` holds, and unknown fields
/// are added to those of `d`, where `d` holds none of the message fields `v` holds (those are
/// merged into each other), at nesting depth `depth` of a reader with recursion limit `limit`
/// that keeps unknown fields, outside any group, where `v` is read back as written.
pub proof fn lemma_field_options_merge_written(d: FieldOptionsView, v: FieldOptionsView, depth: nat, limit: nat)
    requires
        parts_encodable(field_options_parts(v)),
        field_options_roundtrips(v, depth, limit),
    ensures
        field_options_merged(d, parts_bytes(field_options_parts(v)), depth, limit, false, None) == Ok::<FieldOptionsView, ReadError>(field_options_merge_view(d, v)),
{
    lemma_field_options_parts_encodable(v);
    lemma_field_options_parts_bytes(v);
    lemma_field_options_merge_all(d, v, depth, limit);
}

/// A `FieldOptions` is read back as it is written: merging the bytes of its parts into a default
/// message, at nesting depth `depth` of a reader with recursion limit `limit` that keeps
/// unknown fields, outside any group, gives the message back, where it is read back as written.
pub proof fn lemma_field_options_roundtrip(v: FieldOptionsView, depth: nat, limit: nat)
    requires
        parts_encodable(field_options_parts(v)),
        field_options_roundtrips(v, depth, limit),
    ensures
        field_options_merged(field_options_default(), parts_bytes(field_options_parts(v)), depth, limit, false, None) == Ok::<FieldOptionsView, ReadError>(v),
{
    lemma_field_options_parts_encodable(v);
    lemma_field_options_parts_bytes(v);
    lemma_field_options_read_all(v, depth, limit);
}

/// The `OneofOptions` message of `descriptor.proto`.
#[derive(Clone, Debug)]
pub struct OneofOptions {
    uninterpreted_option: RepeatedField<UninterpretedOption>,
    unknown_fields: UnknownFieldSet,
}

/// The view of a `OneofOptions`: its fields, and its unknown fields.
pub struct OneofOptionsView {
    /// The `uninterpreted_option` field.
    pub uninterpreted_option: Seq<UninterpretedOptionView>,
    /// The unknown fields.
    pub unknown_fields: Seq<(u32, Seq<FieldValue>)>,
}

/// The view of a `OneofOptions` value.
pub closed spec fn oneof_options_view(m: OneofOptions) -> OneofOptionsView
{
    OneofOptionsView {
        uninterpreted_option: uninterpreted_option_seq_view(m.uninterpreted_option@),
        unknown_fields: m.unknown_fields@,
    }
}

/// The view of a `OneofOptions` with no field set.
pub open spec fn oneof_options_default() -> OneofOptionsView {
    OneofOptionsView {
        uninterpreted_option: Seq::empty(),
        unknown_fields: Seq::empty(),
    }
}

impl View for OneofOptions {
    type V = OneofOptionsView;

    open spec fn view(&self) -> OneofOptionsView {
        oneof_options_view(*self)
    }
}

impl Default for OneofOptions {
    /// A message with no field set.
    fn default() -> (r: OneofOptions)
        ensures
            r@ == oneof_options_default(),
    {
        let r = OneofOptions {
            uninterpreted_option: Vec::new(),
            unknown_fields: UnknownFieldSet::new(),
        };
        proof {
            assert(uninterpreted_option_seq_view(r.uninterpreted_option@) =~= Seq::empty());
            assert(r@ =~= oneof_options_default());
        }
        r
    }
}

impl OneofOptions {
    /// Gets the values of the `uninterpreted_option` field.
    pub fn uninterpreted_option(&self) -> (r: &RepeatedField<UninterpretedOption>)
        ensures
            uninterpreted_option_seq_view(r@) == self@.uninterpreted_option,
    {
        &self.uninterpreted_option
    }

    /// Gets the values of the `uninterpreted_option` field for changing them.
    pub fn uninterpreted_option_mut(&mut self) -> (r: &mut RepeatedField<UninterpretedOption>)
        ensures
            uninterpreted_option_seq_view((*r)@) == old(self)@.uninterpreted_option,
            final(self)@ == (OneofOptionsView { uninterpreted_option: uninterpreted_option_seq_view((*final(r))@), ..old(self)@ }),
    {
        &mut self.uninterpreted_option
    }
}

/// The parts a `OneofOptions` is written as: its fields that are set, in field number order, then its
/// unknown fields.
#[verifier::opaque]
pub open spec fn oneof_options_parts(v: OneofOptionsView) -> Seq<(bool, Seq<u8>)>
{
    uninterpreted_option_seq_parts(999u32, v.uninterpreted_option) + (set_parts(v.unknown_fields))
}

/// What reading the field with tag value `t` from the front of `rest` into `v` gives: the
/// number of bytes read and the message after, or the error.
pub open spec fn oneof_options_field_read(v: OneofOptionsView, t: u32, rest: Seq<u8>, depth: nat, limit: nat, skip: bool, eg: Option<Tag>) -> ReadResult<(int, OneofOptionsView)>
{
    if t == 7994u32 {
        match length_delimited_read(rest) { Err(e) => Err(e), Ok((m, b)) => if depth >= limit { Err(ReadError::RecursionLimitExceeded) } else { match uninterpreted_option_merged(uninterpreted_option_default(), b, depth + 1, limit, skip, eg) { Ok(y) => Ok((m, OneofOptionsView { uninterpreted_option: v.uninterpreted_option.push(y), ..v })), Err(e) => Err(e) } } }
    } else {
        match unknown_field_read(v.unknown_fields, t, rest, depth, limit, skip, eg) {
            Ok((m, u)) => Ok((m, OneofOptionsView { unknown_fields: u, ..v })),
            Err(e) => Err(e),
        }
    }
}

/// What reading all of `s` into `v` as `OneofOptions` fields gives: the message after, or the error.
/// `depth` and `limit` are the reader's depth and recursion limit, `skip` whether it skips
/// unknown fields, and `eg` the end tag of the group it is in.
pub open spec fn oneof_options_merged(v: OneofOptionsView, s: Seq<u8>, depth: nat, limit: nat, skip: bool, eg: Option<Tag>) -> ReadResult<OneofOptionsView>
    decreases s.len(),
{
    if s.len() == 0 {
        Ok(v)
    } else {
        match varint_read(s) {
            Err(e) => Err(e),
            Ok((n, w)) => if n < 1 || n > s.len() {
                Err(eof())
            } else {
                match oneof_options_field_read(v, w as u32, s.skip(n), depth, limit, skip, eg) {
                    Err(e) => Err(e),
                    Ok((m, v2)) => if m < 0 || n + m > s.len() {
                        Err(eof())
                    } else {
                        oneof_options_merged(v2, s.skip(n + m), depth, limit, skip, eg)
                    },
                }
            },
        }
    }
}

/// Reads a `OneofOptions` from the reader as a length delimited value, merging it into `this`, one
/// level deeper.
fn merge_oneof_options_delimited(this: &mut OneofOptions, input: &mut CodedReader) -> (r: ReadResult<()>)
    ensures
        match length_delimited_read(old(input).available()) {
            Err(e) => r == Err::<(), ReadError>(e) && same_config(*old(input), *final(input)),
            Ok((m, b)) => if old(input).depth() >= old(input).recursion_limit() {
                r == Err::<(), ReadError>(ReadError::RecursionLimitExceeded) && same_config(*old(input), *final(input))
            } else {
                match oneof_options_merged(old(this)@, b, old(input).depth() + 1, old(input).recursion_limit(), skips(*old(input)), old(input).end_group_view()) {
                    Ok(y) => r is Ok && final(this)@ == y && final(input).position() == old(input).position() + m
                        && same_state(*old(input), *final(input)),
                    Err(e) => r == Err::<(), ReadError>(e) && same_config(*old(input), *final(input)),
                }
            },
        },
{
    let rem0 = input.remaining();
    let ghost s = input.available();
    let ghost start = *input;
    let length = match input.read_length() {
        Ok(l) => l,
        Err(e) => return Err(e),
    };
    let rem1 = input.remaining();
    let ghost n0 = input.position() - start.position();
    proof {
        lemma_varint_read_len(s);
        assert(input.available() =~= s.skip(n0));
    }
    let previous = match input.push_length(length) {
        Ok(p) => p,
        Err(e) => return Err(e),
    };
    let rem2 = input.remaining();
    let ghost b = s.subrange(n0, n0 + length@);
    proof {
        assert(input.available() =~= b);
        assert(length_delimited_read(s) == Ok::<(int, Seq<u8>), ReadError>((n0 + length@, b)));
    }
    let ghost pushed = *input;
    match input.increment_recursion_count() {
        Ok(()) => {},
        Err(e) => {
            input.pop_length(previous);
            return Err(e);
        },
    }
    let r = this.merge_from(input);
    let rem3 = input.remaining();
    input.decrement_recursion_count();
    input.pop_length(previous);
    r
}

/// The parts an optional `OneofOptions` field with field number `num` is written as: nothing where it
/// is not set, else its tag, its length and its parts.
pub open spec fn oneof_options_opt_parts(num: u32, o: Option<OneofOptionsView>) -> Seq<(bool, Seq<u8>)> {
    match o {
        Some(y) => entry_parts(num, oneof_options_parts(y)),
        None => Seq::empty(),
    }
}

/// Adds the size of an optional `OneofOptions` field with field number `num` to the builder.
fn oneof_options_opt_size(o: &Option<OneofOptions>, b: LengthBuilder, num: FieldNumber) -> (r: Option<LengthBuilder>)
    ensures
        size_added(b@ as int, parts_encodable(oneof_options_opt_parts(num@, opt_view(*o))), parts_bytes(oneof_options_opt_parts(num@, opt_view(*o))).len() as int, r),
{
    match o {
        Some(y) => {
            let len = y.calculate_size();
            add_entry_size(b, num, len, Ghost(oneof_options_parts(y@)))
        },
        None => {
            proof {
                assert(parts_encodable(Seq::<(bool, Seq<u8>)>::empty()));
                assert(parts_bytes(Seq::<(bool, Seq<u8>)>::empty()).len() == 0);
            }
            Some(b)
        },
    }
}

/// Writes an optional `OneofOptions` field with field number `num`: nothing where it is not set, else
/// its tag, its length and its fields.
fn write_oneof_options_opt(o: &Option<OneofOptions>, output: &mut CodedWriter, num: FieldNumber) -> (r: WriteResult)
    ensures
        (final(output).written(), r) == parts_written(old(output).written(), old(output).capacity(), oneof_options_opt_parts(num@, opt_view(*o))),
        final(output).capacity() == old(output).capacity(),
        (*final(final(output).target()))@ == (*final(old(output).target()))@,
{
    match o {
        Some(y) => {
            let ghost p = oneof_options_parts(y@);
            let ghost head = entry_head(num@, p);
            let ghost w0 = output.written();
            let ghost cap = output.capacity();
            proof {
                lemma_parts_written_append(w0, cap, head, p);
                reveal_with_fuel(parts_written, 3);
                assert(head.drop_first().drop_first() =~= Seq::<(bool, Seq<u8>)>::empty());
                lemma_varint_roundtrip(tag_value(num@, WireType::LengthDelimited) as u64);
            }
            match output.write_tag(Tag::new(num, WireType::LengthDelimited)) {
                Ok(()) => {},
                Err(e) => return Err(e),
            }
            let len = match y.calculate_size() {
                Some(len) => len,
                None => return Err(WriteError::ValueTooLarge),
            };
            proof {
                lemma_varint_roundtrip(len@ as u64);
            }
            match output.write_length(len) {
                Ok(()) => {},
                Err(e) => return Err(e),
            }
            y.write_to(output)
        },
        None => Ok(()),
    }
}

impl OneofOptions {
    /// Gets the unknown fields of the message.
    pub fn unknown_fields(&self) -> (r: &UnknownFieldSet)
        ensures
            r@ == self@.unknown_fields,
    {
        &self.unknown_fields
    }

    /// Gets the unknown fields of the message for changing them.
    pub fn unknown_fields_mut(&mut self) -> (r: &mut UnknownFieldSet)
        ensures
            (*r)@ == old(self)@.unknown_fields,
            final(self)@ == (OneofOptionsView { unknown_fields: (*final(r))@, ..old(self)@ }),
    {
        &mut self.unknown_fields
    }

    /// Returns whether the message is initialized: whether all its required fields are set.
    pub fn is_initialized(&self) -> (r: bool)
        ensures
            r,
    {
        if !crate::is_initialized(&self.uninterpreted_option) {
            return false;
        }
        true
    }

    /// Calculates the size of the message as it is written: `None` if a part cannot be
    /// written or the size does not fit in a length.
    #[verifier::spinoff_prover]
    pub fn calculate_size(&self) -> (r: Option<Length>)
        ensures
            opt_length(r) == parts_size(oneof_options_parts(self@)),
    {
        let ghost v = self@;
        let ghost all = oneof_options_parts(v);
        let b0 = LengthBuilder::new();
        let ghost d0 = Seq::<(bool, Seq<u8>)>::empty();
        proof {
            reveal(oneof_options_parts);
            assert(all =~= d0 + all);
        }
        let ghost p1 = uninterpreted_option_seq_parts(999u32, v.uninterpreted_option);
        let ghost rest1 = set_parts(v.unknown_fields);
        proof {
            assert(all == d0 + (p1 + rest1));
            assert(d0 + (p1 + rest1) =~= d0 + p1 + rest1);
        }
        let r1 = uninterpreted_option_values_size(&self.uninterpreted_option, b0, FieldNumber::new_unchecked(999));
        proof {
            lemma_size_chain(0, d0, p1, Some(b0), r1);
            if r1 is None {
                lemma_size_chain(0, d0 + p1, rest1, r1, r1);
            }
        }
        let b1 = match r1 {
            Some(b) => b,
            None => return None,
        };
        let ghost d1 = d0 + p1;
        let ghost p2 = set_parts(v.unknown_fields);
        let ghost rest2 = Seq::<(bool, Seq<u8>)>::empty();
        proof {
            assert(all == d1 + p2);
            assert(p2 + rest2 =~= p2);
            assert(d1 + (p2 + rest2) =~= d1 + p2 + rest2);
        }
        let r2 = self.unknown_fields.calculate_size(b1);
        proof {
            lemma_size_chain(0, d1, p2, Some(b1), r2);
            if r2 is None {
                lemma_size_chain(0, d1 + p2, rest2, r2, r2);
            }
        }
        let b2 = match r2 {
            Some(b) => b,
            None => return None,
        };
        let ghost d2 = d1 + p2;
        Some(b2.build())
    }

    /// Writes the message to the writer: its fields that are set, in field number order, then
    /// its unknown fields.
    #[verifier::spinoff_prover]
    pub fn write_to(&self, output: &mut CodedWriter) -> (r: WriteResult)
        ensures
            (final(output).written(), r) == parts_written(old(output).written(), old(output).capacity(), oneof_options_parts(self@)),
            final(output).capacity() == old(output).capacity(),
            (*final(final(output).target()))@ == (*final(old(output).target()))@,
    {
        let ghost v = self@;
        let ghost all = oneof_options_parts(v);
        let ghost start = output.written();
        let ghost cap = output.capacity();
        let ghost d0 = Seq::<(bool, Seq<u8>)>::empty();
        proof {
            reveal(oneof_options_parts);
            assert(all =~= d0 + all);
        }
        let ghost p1 = uninterpreted_option_seq_parts(999u32, v.uninterpreted_option);
        let ghost rest1 = set_parts(v.unknown_fields);
        proof {
            assert(all == d0 + (p1 + rest1));
            assert(d0 + (p1 + rest1) =~= d0 + p1 + rest1);
            lemma_parts_written_append(start, cap, d0, p1);
            lemma_parts_written_append(start, cap, d0 + p1, rest1);
        }
        match write_uninterpreted_option_values(&self.uninterpreted_option, output, FieldNumber::new_unchecked(999)) {
            Ok(()) => {},
            Err(e) => return Err(e),
        }
        let ghost d1 = d0 + p1;
        let ghost p2 = set_parts(v.unknown_fields);
        let ghost rest2 = Seq::<(bool, Seq<u8>)>::empty();
        proof {
            assert(all == d1 + p2);
            assert(p2 + rest2 =~= p2);
            assert(d1 + (p2 + rest2) =~= d1 + p2 + rest2);
            lemma_parts_written_append(start, cap, d1, p2);
            lemma_parts_written_append(start, cap, d1 + p2, rest2);
        }
        match self.unknown_fields.write_to(output) {
            Ok(()) => {},
            Err(e) => return Err(e),
        }
        let ghost d2 = d1 + p2;
        proof {
            assert(all =~= d2 + Seq::<(bool, Seq<u8>)>::empty());
            assert(all == d2);
            lemma_ok_unit(parts_written(start, cap, all).1);
        }
        Ok(())
    }

    /// Reads the value of the field whose tag value `t` was just read into the message.
    #[verifier::spinoff_prover]
    fn merge_field(&mut self, t: u32, input: &mut CodedReader) -> (r: ReadResult<()>)
        ensures
            match oneof_options_field_read(old(self)@, t, old(input).available(), old(input).depth(), old(input).recursion_limit(), skips(*old(input)), old(input).end_group_view()) {
                Ok((m, v2)) => r is Ok && final(self)@ == v2 && m >= 0 && final(input).position()
                    == old(input).position() + m && same_state(*old(input), *final(input)),
                Err(e) => r == Err::<(), ReadError>(e) && same_config(*old(input), *final(input)),
            },
    {
        let rem0 = input.remaining();
        let ghost rest = input.available();
        if t == 7994u32 {
            proof {
                lemma_length_delimited_read_len(rest);
            }
            input.set_last_tag(Some(Tag::new(FieldNumber::new_unchecked(999), WireType::LengthDelimited)));
            let mut y = UninterpretedOption::default();
            match merge_uninterpreted_option_delimited(&mut y, input) {
                Ok(()) => {},
                Err(e) => return Err(e),
            }
            let ghost old_values = self.uninterpreted_option@;
            self.uninterpreted_option.push(y);
            proof {
                assert(self.uninterpreted_option@.subrange(0, self.uninterpreted_option@.len() - 1) =~= old_values);
            }
        } else {
            let tag = match Tag::try_from(t) {
                Ok(tag) => tag,
                Err(_) => return Err(ReadError::InvalidTag(t)),
            };
            input.set_last_tag(Some(tag));
            match self.unknown_fields.try_add_field_from(input) {
                Ok(TryRead::Consumed) => {},
                Ok(TryRead::Yielded) => match input.skip() {
                    Ok(()) => {},
                    Err(e) => return Err(e),
                },
                Err(e) => return Err(e),
            }
        }
        let rem1 = input.remaining();
        Ok(())
    }

    /// Merges the message with fields read from the reader, up to its limit. Scalar fields
    /// read replace those set, message fields are merged, repeated fields are added to,
    /// and unknown fields are stored or skipped as the reader says. On an error the message
    /// may hold some of the fields read before it.
    #[verifier::spinoff_prover]
    #[verifier::rlimit(50)]
    pub fn merge_from(&mut self, input: &mut CodedReader) -> (r: ReadResult<()>)
        ensures
            merge_outcome(oneof_options_merged(old(self)@, old(input).available(), old(input).depth(), old(input).recursion_limit(), skips(*old(input)), old(input).end_group_view()), final(self)@, *old(input), *final(input), r),
    {
        let rem0 = input.remaining();
        let ghost start = *input;
        let ghost total = oneof_options_merged(self@, input.available(), input.depth(), input.recursion_limit(), skips(*input), input.end_group_view());
        loop
            invariant
                start == *old(input),
                same_state(start, *input),
                0 <= start.position() <= input.position(),
                input.limit_end() <= input.input().len(),
                total == oneof_options_merged(old(self)@, start.available(), start.depth(), start.recursion_limit(), skips(start), start.end_group_view()),
                total == oneof_options_merged(self@, input.available(), start.depth(), start.recursion_limit(), skips(start), start.end_group_view()),
            decreases input.available().len(),
        {
            let ghost s = input.available();
            let ghost before = *input;
            let ghost v = self@;
            let t = match input.read_field() {
                Ok(Some(t)) => t,
                Ok(None) => return Ok(()),
                Err(e) => return Err(e),
            };
            let rem1 = input.remaining();
            let ghost n = input.position() - before.position();
            proof {
                lemma_varint_read_len(s);
                assert(input.available() =~= s.skip(n));
            }
            let ghost mid = *input;
            match self.merge_field(t, input) {
                Ok(()) => {},
                Err(e) => return Err(e),
            }
            let rem2 = input.remaining();
            proof {
                let m = input.position() - mid.position();
                assert(input.available() =~= s.skip(n + m));
            }
        }
    }
}

impl crate::Message for OneofOptions {
    open spec fn merged(v: OneofOptionsView, s: Seq<u8>, depth: nat, limit: nat, skip: bool, eg: Option<Tag>) -> ReadResult<OneofOptionsView> {
        oneof_options_merged(v, s, depth, limit, skip, eg)
    }

    open spec fn parts(v: OneofOptionsView) -> Seq<(bool, Seq<u8>)> {
        oneof_options_parts(v)
    }

    open spec fn initialized(v: OneofOptionsView) -> bool {
        true
    }

    open spec fn unknown_fields_of(v: OneofOptionsView) -> Seq<(u32, Seq<FieldValue>)> {
        v.unknown_fields
    }

    open spec fn with_unknown_fields(v: OneofOptionsView, u: Seq<(u32, Seq<FieldValue>)>) -> OneofOptionsView {
        OneofOptionsView { unknown_fields: u, ..v }
    }

    fn merge_from(&mut self, input: &mut CodedReader) -> (r: ReadResult<()>) {
        OneofOptions::merge_from(self, input)
    }

    fn calculate_size(&self) -> (r: Option<Length>) {
        OneofOptions::calculate_size(self)
    }

    fn write_to(&self, output: &mut CodedWriter) -> (r: WriteResult) {
        OneofOptions::write_to(self, output)
    }

    fn is_initialized(&self) -> (r: bool) {
        OneofOptions::is_initialized(self)
    }

    fn unknown_fields(&self) -> (r: &UnknownFieldSet) {
        OneofOptions::unknown_fields(self)
    }

    fn unknown_fields_mut(&mut self) -> (r: &mut UnknownFieldSet) {
        OneofOptions::unknown_fields_mut(self)
    }
}

impl DebugMessage for OneofOptions {
    open spec fn spec_full_name() -> Seq<char> {
        "google.protobuf.OneofOptions"@
    }

    open spec fn spec_name() -> Seq<char> {
        "OneofOptions"@
    }

    fn full_name() -> (r: &'static str) {
        "google.protobuf.OneofOptions"
    }

    fn name() -> (r: &'static str) {
        "OneofOptions"
    }
}

/// Whether `t` is the tag of a field a `OneofOptions` reads.
pub open spec fn oneof_options_known_tag(t: u32) -> bool {
    t == 7994u32
}

/// Whether a `OneofOptions` is read back as it is written, at nesting depth `depth` of a reader with
/// recursion limit `limit`: its messages are read back as written one level deeper, within
/// the limit; and its unknown fields are read back as written, none with the tag of one of
/// its fields.
pub open spec fn oneof_options_roundtrips(v: OneofOptionsView, depth: nat, limit: nat) -> bool
{
    &&& (v.uninterpreted_option.len() > 0 ==> depth < limit)
    &&& forall|i: int| 0 <= i < v.uninterpreted_option.len() ==> uninterpreted_option_roundtrips(#[trigger] v.uninterpreted_option[i], depth + 1, limit)
    &&& set_readable(v.unknown_fields)
    &&& forall|k: int| 0 <= k < set_pairs(v.unknown_fields).len() ==> !oneof_options_known_tag(tag_value(
        #[trigger] set_pairs(v.unknown_fields)[k].0,
        field_value_wire_type(set_pairs(v.unknown_fields)[k].1),
    ))
}

/// Reading a `OneofOptions` field whose tag is read from the front of `s` and whose value is read after
/// it continues with the rest of `s`.
proof fn lemma_oneof_options_step(v: OneofOptionsView, s: Seq<u8>, k: int, t: u32, m: int, v2: OneofOptionsView, depth: nat, limit: nat)
    requires
        varint_read(s) == Ok::<(int, u64), ReadError>((k, t as u64)),
        1 <= k <= s.len(),
        oneof_options_field_read(v, t, s.skip(k), depth, limit, false, None) == Ok::<(int, OneofOptionsView), ReadError>((m, v2)),
        0 <= m,
        k + m <= s.len(),
    ensures
        oneof_options_merged(v, s, depth, limit, false, None) == oneof_options_merged(v2, s.skip(k + m), depth, limit, false, None),
{
    assert((t as u64) as u32 == t);
}

/// Reading the entries of `UninterpretedOption` values written as field `uninterpreted_option` of a `OneofOptions` adds the values.
#[verifier::spinoff_prover]
#[verifier::rlimit(60)]
proof fn lemma_oneof_options_read_uninterpreted_option(v: OneofOptionsView, ys: Seq<UninterpretedOptionView>, rest: Seq<u8>, depth: nat, limit: nat)
    requires
        parts_encodable(uninterpreted_option_seq_parts(999u32, ys)),
        ys.len() > 0 ==> depth < limit,
        forall|i: int| 0 <= i < ys.len() ==> uninterpreted_option_roundtrips(#[trigger] ys[i], depth + 1, limit),
    ensures
        oneof_options_merged(v, parts_bytes(uninterpreted_option_seq_parts(999u32, ys)) + rest, depth, limit, false, None) == oneof_options_merged(
            OneofOptionsView { uninterpreted_option: v.uninterpreted_option + ys, ..v },
            rest,
            depth, limit, false, None,
        ),
    decreases ys.len(),
{
    if ys.len() == 0 {
        assert(parts_bytes(uninterpreted_option_seq_parts(999u32, ys)) + rest =~= rest);
        assert(v.uninterpreted_option + ys =~= v.uninterpreted_option);
    } else {
        let y = ys[0];
        let tail = ys.drop_first();
        assert forall|i: int| 0 <= i < tail.len() implies uninterpreted_option_roundtrips(#[trigger] tail[i], depth + 1, limit) by {
            assert(tail[i] == ys[i + 1]);
        }
        lemma_uninterpreted_option_seq_parts_front(999u32, ys);
        let ep = entry_parts(999u32, uninterpreted_option_parts(y));
        lemma_parts_encodable_two(ep, uninterpreted_option_seq_parts(999u32, tail));
        lemma_parts_bytes_append(ep, uninterpreted_option_seq_parts(999u32, tail));
        assert(ep[1].0);
        let after = parts_bytes(uninterpreted_option_seq_parts(999u32, tail)) + rest;
        let s = parts_bytes(uninterpreted_option_seq_parts(999u32, ys)) + rest;
        assert(s =~= parts_bytes(ep) + after);
        lemma_entry_bytes_read(999u32, uninterpreted_option_parts(y), after);
        lemma_tag_value(999u32, WireType::LengthDelimited);
        lemma_uninterpreted_option_roundtrip(y, depth + 1, limit);
        let hl = parts_bytes(ep).len() as int;
        let k = varint_len(7994u64) as int;
        let v2 = OneofOptionsView { uninterpreted_option: v.uninterpreted_option.push(y), ..v };
        lemma_oneof_options_step(v, s, k, 7994u32, hl - k, v2, depth, limit);
        lemma_oneof_options_read_uninterpreted_option(v2, tail, rest, depth, limit);
        assert(v.uninterpreted_option.push(y) + tail =~= v.uninterpreted_option + ys);
    }
}

/// Reading unknown field values written one after the other into a `OneofOptions`, none with the tag
/// of one of its fields, adds them to its unknown fields.
proof fn lemma_oneof_options_read_unknown(v: OneofOptionsView, ps: Seq<(u32, FieldValue)>, rest: Seq<u8>, depth: nat, limit: nat)
    requires
        forall|k: int| 0 <= k < ps.len() ==> value_readable(#[trigger] ps[k].0, ps[k].1) && !oneof_options_known_tag(
            tag_value(ps[k].0, field_value_wire_type(ps[k].1)),
        ),
    ensures
        oneof_options_merged(v, parts_bytes(pairs_parts(ps)) + rest, depth, limit, false, None) == oneof_options_merged(
            OneofOptionsView { unknown_fields: push_pairs(v.unknown_fields, ps), ..v },
            rest,
            depth, limit, false, None,
        ),
    decreases ps.len(),
{
    if ps.len() == 0 {
        assert(parts_bytes(pairs_parts(ps)) + rest =~= rest);
    } else {
        let n = ps[0].0;
        let fv = ps[0].1;
        let tail = ps.drop_first();
        assert forall|k: int| 0 <= k < tail.len() implies value_readable(#[trigger] tail[k].0, tail[k].1) && !oneof_options_known_tag(
            tag_value(tail[k].0, field_value_wire_type(tail[k].1)),
        ) by {
            assert(tail[k] == ps[k + 1]);
        }
        assert(value_readable(ps[0].0, ps[0].1));
        lemma_parts_bytes_append(field_value_parts(n, fv), pairs_parts(tail));
        let after = parts_bytes(pairs_parts(tail)) + rest;
        let s = parts_bytes(pairs_parts(ps)) + rest;
        assert(s =~= parts_bytes(field_value_parts(n, fv)) + after);
        lemma_read_value_bytes(n, fv, after);
        let t = tag_value(n, field_value_wire_type(fv));
        let hl = parts_bytes(field_value_parts(n, fv)).len() as int;
        let k = varint_len(t as u64) as int;
        let v2 = OneofOptionsView { unknown_fields: view_push(v.unknown_fields, n, fv), ..v };
        lemma_oneof_options_step(v, s, k, t, hl - k, v2, depth, limit);
        lemma_oneof_options_read_unknown(v2, tail, rest, depth, limit);
    }
}

/// The writability of the parts of a `OneofOptions` is that of each field's parts.
proof fn lemma_oneof_options_parts_encodable(v: OneofOptionsView)
    ensures
        parts_encodable(oneof_options_parts(v)) == (parts_encodable(uninterpreted_option_seq_parts(999u32, v.uninterpreted_option)) && parts_encodable(set_parts(v.unknown_fields))),
{
    reveal(oneof_options_parts);
    let p0 = uninterpreted_option_seq_parts(999u32, v.uninterpreted_option);
    let p1 = set_parts(v.unknown_fields);
    let q1 = p1;
    let q0 = p0 + q1;
    lemma_parts_encodable_two(p0, q1);
    assert(oneof_options_parts(v) == q0);
}

/// The bytes of the parts of a `OneofOptions` are those of each field's parts, one after the other.
proof fn lemma_oneof_options_parts_bytes(v: OneofOptionsView)
    ensures
        parts_bytes(oneof_options_parts(v)) == parts_bytes(uninterpreted_option_seq_parts(999u32, v.uninterpreted_option)) + parts_bytes(set_parts(v.unknown_fields)),
{
    reveal(oneof_options_parts);
    let p0 = uninterpreted_option_seq_parts(999u32, v.uninterpreted_option);
    let p1 = set_parts(v.unknown_fields);
    let q1 = p1;
    let q0 = p0 + q1;
    lemma_parts_bytes_append(p0, q1);
    assert(oneof_options_parts(v) == q0);
}

/// The message a `OneofOptions` `d` becomes when `v` is merged into it: each field `v` holds once
/// replaces the one `d` holds, the values of each repeated field of `v` follow those of `d`,
/// and the unknown fields of `v` are added to those of `d`, field number by field number.
pub open spec fn oneof_options_merge_view(d: OneofOptionsView, v: OneofOptionsView) -> OneofOptionsView {
    OneofOptionsView { uninterpreted_option: d.uninterpreted_option + v.uninterpreted_option, unknown_fields: view_merge(d.unknown_fields, v.unknown_fields) }
}

/// Reading the bytes of the parts of a `OneofOptions` `v`, field by field, into `d` merges `v` into `d`.
#[verifier::spinoff_prover]
#[verifier::rlimit(60)]
proof fn lemma_oneof_options_merge_all(d: OneofOptionsView, v: OneofOptionsView, depth: nat, limit: nat)
    requires
        parts_encodable(uninterpreted_option_seq_parts(999u32, v.uninterpreted_option)),
        oneof_options_roundtrips(v, depth, limit),
        parts_bytes(oneof_options_parts(v)) == parts_bytes(uninterpreted_option_seq_parts(999u32, v.uninterpreted_option)) + parts_bytes(set_parts(v.unknown_fields)),
    ensures
        oneof_options_merged(d, parts_bytes(oneof_options_parts(v)), depth, limit, false, None) == Ok::<OneofOptionsView, ReadError>(oneof_options_merge_view(d, v)),
{
    let p0 = uninterpreted_option_seq_parts(999u32, v.uninterpreted_option);
    let p1 = set_parts(v.unknown_fields);
    let b0 = parts_bytes(p0);
    let b1 = parts_bytes(p1);
    let r1 = b1;
    let r0 = b0 + r1;
    let d0 = d;
    let d1 = OneofOptionsView { uninterpreted_option: d.uninterpreted_option + v.uninterpreted_option, ..d0 };
    assert(oneof_options_merged(d0, r0, depth, limit, false, None) == oneof_options_merged(d1, r1, depth, limit, false, None)) by {
        lemma_oneof_options_read_uninterpreted_option(d0, v.uninterpreted_option, r1, depth, limit);
        assert(OneofOptionsView { uninterpreted_option: d0.uninterpreted_option + v.uninterpreted_option, ..d0 } == d1);
    }
    let ps = set_pairs(v.unknown_fields);
    assert(oneof_options_merged(d1, r1, depth, limit, false, None) == Ok::<OneofOptionsView, ReadError>(oneof_options_merge_view(d, v))) by {
        lemma_set_pairs(v.unknown_fields, d.unknown_fields);
        lemma_entries_readable(v.unknown_fields);
        assert forall|k: int| 0 <= k < ps.len() implies value_readable(#[trigger] ps[k].0, ps[k].1) && !oneof_options_known_tag(
            tag_value(ps[k].0, field_value_wire_type(ps[k].1)),
        ) by {
            assert(!oneof_options_known_tag(tag_value(set_pairs(v.unknown_fields)[k].0, field_value_wire_type(set_pairs(v.unknown_fields)[k].1))));
        }
        lemma_oneof_options_read_unknown(d1, ps, Seq::empty(), depth, limit);
        assert(b1 + Seq::<u8>::empty() =~= b1);
        let dl = OneofOptionsView { unknown_fields: push_pairs(d1.unknown_fields, ps), ..d1 };
        assert(dl == oneof_options_merge_view(d, v));
    }
}

/// Reading the bytes of the parts of a `OneofOptions`, field by field, gives the message back.
proof fn lemma_oneof_options_read_all(v: OneofOptionsView, depth: nat, limit: nat)
    requires
        parts_encodable(uninterpreted_option_seq_parts(999u32, v.uninterpreted_option)),
        oneof_options_roundtrips(v, depth, limit),
        parts_bytes(oneof_options_parts(v)) == parts_bytes(uninterpreted_option_seq_parts(999u32, v.uninterpreted_option)) + parts_bytes(set_parts(v.unknown_fields)),
    ensures
        oneof_options_merged(oneof_options_default(), parts_bytes(oneof_options_parts(v)), depth, limit, false, None) == Ok::<OneofOptionsView, ReadError>(v),
{
    lemma_oneof_options_merge_all(oneof_options_default(), v, depth, limit);
    lemma_entries_readable(v.unknown_fields);
    lemma_merge_into_empty(v.unknown_fields);
    assert(Seq::empty() + v.uninterpreted_option =~= v.uninterpreted_option);
    assert(oneof_options_merge_view(oneof_options_default(), v) == v);
}

/// Merging what a `OneofOptions` `v` writes into a message `d` merges `v` into `d`: each field `v`
/// holds replaces the one `d` holds, repeated values follow those `d` holds, and unknown fields
/// are added to those of `d`, where `d` holds none of the message fields `v` holds (those are
/// merged into each other), at nesting depth `depth` of a reader with recursion limit `limit`
/// that keeps unknown fields, outside any group, where `v` is read back as written.
pub proof fn lemma_oneof_options_merge_written(d: OneofOptionsView, v: OneofOptionsView, depth: nat, limit: nat)
    requires
        parts_encodable(oneof_options_parts(v)),
        oneof_options_roundtrips(v, depth, limit),
    ensures
        oneof_options_merged(d, parts_bytes(oneof_options_parts(v)), depth, limit, false, None) == Ok::<OneofOptionsView, ReadError>(oneof_options_merge_view(d, v)),
{
    lemma_oneof_options_parts_encodable(v);
    lemma_oneof_options_parts_bytes(v);
    lemma_oneof_options_merge_all(d, v, depth, limit);
}

/// A `OneofOptions` is read back as it is written: merging the bytes of its parts into a default
/// message, at nesting depth `depth` of a reader with recursion limit `limit` that keeps
/// unknown fields, outside any group, gives the message back, where it is read back as written.
pub proof fn lemma_oneof_options_roundtrip(v: OneofOptionsView, depth: nat, limit: nat)
    requires
        parts_encodable(oneof_options_parts(v)),
        oneof_options_roundtrips(v, depth, limit),
    ensures
        oneof_options_merged(oneof_options_default(), parts_bytes(oneof_options_parts(v)), depth, limit, false, None) == Ok::<OneofOptionsView, ReadError>(v),
{
    lemma_oneof_options_parts_encodable(v);
    lemma_oneof_options_parts_bytes(v);
    lemma_oneof_options_read_all(v, depth, limit);
}

/// The `EnumOptions` message of `descriptor.proto`.
#[derive(Clone, Debug)]
pub struct EnumOptions {
    allow_alias: Option<bool>,
    deprecated: Option<bool>,
    uninterpreted_option: RepeatedField<UninterpretedOption>,
    unknown_fields: UnknownFieldSet,
}

/// The view of a `EnumOptions`: its fields, and its unknown fields.
pub struct EnumOptionsView {
    /// The `allow_alias` field.
    pub allow_alias: Option<bool>,
    /// The `deprecated` field.
    pub deprecated: Option<bool>,
    /// The `uninterpreted_option` field.
    pub uninterpreted_option: Seq<UninterpretedOptionView>,
    /// The unknown fields.
    pub unknown_fields: Seq<(u32, Seq<FieldValue>)>,
}

/// The view of a `EnumOptions` value.
pub closed spec fn enum_options_view(m: EnumOptions) -> EnumOptionsView
{
    EnumOptionsView {
        allow_alias: m.allow_alias,
        deprecated: m.deprecated,
        uninterpreted_option: uninterpreted_option_seq_view(m.uninterpreted_option@),
        unknown_fields: m.unknown_fields@,
    }
}

/// The view of a `EnumOptions` with no field set.
pub open spec fn enum_options_default() -> EnumOptionsView {
    EnumOptionsView {
        allow_alias: None,
        deprecated: None,
        uninterpreted_option: Seq::empty(),
        unknown_fields: Seq::empty(),
    }
}

impl View for EnumOptions {
    type V = EnumOptionsView;

    open spec fn view(&self) -> EnumOptionsView {
        enum_options_view(*self)
    }
}

impl Default for EnumOptions {
    /// A message with no field set.
    fn default() -> (r: EnumOptions)
        ensures
            r@ == enum_options_default(),
    {
        let r = EnumOptions {
            allow_alias: None,
            deprecated: None,
            uninterpreted_option: Vec::new(),
            unknown_fields: UnknownFieldSet::new(),
        };
        proof {
            assert(uninterpreted_option_seq_view(r.uninterpreted_option@) =~= Seq::empty());
            assert(r@ =~= enum_options_default());
        }
        r
    }
}

impl EnumOptions {
    /// Gets the `allow_alias` field, or its default, `false`.
    pub fn allow_alias(&self) -> (r: bool)
        ensures
            r == self@.allow_alias.unwrap_or(false),
    {
        match self.allow_alias {
            Some(v) => v,
            None => false,
        }
    }

    /// Gets the `allow_alias` field if it is set.
    pub fn allow_alias_option(&self) -> (r: Option<&bool>)
        ensures
            opt_ref_view(r) == self@.allow_alias,
    {
        self.allow_alias.as_ref()
    }

    /// Gets the `allow_alias` field for changing it, setting it to its type's default first if it
    /// is not set.
    pub fn allow_alias_mut(&mut self) -> (r: &mut bool)
        ensures
            (*r)@ == old(self)@.allow_alias.unwrap_or(false),
            final(self)@ == (EnumOptionsView { allow_alias: Some((*final(r))@), ..old(self)@ }),
    {
        self.allow_alias.get_or_insert(false)
    }

    /// Returns whether the `allow_alias` field is set.
    pub fn has_allow_alias(&self) -> (r: bool)
        ensures
            r == self@.allow_alias is Some,
    {
        self.allow_alias.is_some()
    }

    /// Sets the `allow_alias` field.
    pub fn set_allow_alias(&mut self, value: bool)
        ensures
            final(self)@ == (EnumOptionsView { allow_alias: Some(value@), ..old(self)@ }),
    {
        self.allow_alias = Some(value);
    }

    /// Takes the `allow_alias` field out, leaving it unset.
    pub fn take_allow_alias(&mut self) -> (r: Option<bool>)
        ensures
            opt_view(r) == old(self)@.allow_alias,
            final(self)@ == (EnumOptionsView { allow_alias: None, ..old(self)@ }),
    {
        self.allow_alias.take()
    }

    /// Clears the `allow_alias` field, leaving it unset.
    pub fn clear_allow_alias(&mut self)
        ensures
            final(self)@ == (EnumOptionsView { allow_alias: None, ..old(self)@ }),
    {
        self.allow_alias = None;
    }

    /// Gets the `deprecated` field, or its default, `false`.
    pub fn deprecated(&self) -> (r: bool)
        ensures
            r == self@.deprecated.unwrap_or(false),
    {
        match self.deprecated {
            Some(v) => v,
            None => false,
        }
    }

    /// Gets the `deprecated` field if it is set.
    pub fn deprecated_option(&self) -> (r: Option<&bool>)
        ensures
            opt_ref_view(r) == self@.deprecated,
    {
        self.deprecated.as_ref()
    }

    /// Gets the `deprecated` field for changing it, setting it to its type's default first if it
    /// is not set.
    pub fn deprecated_mut(&mut self) -> (r: &mut bool)
        ensures
            (*r)@ == old(self)@.deprecated.unwrap_or(false),
            final(self)@ == (EnumOptionsView { deprecated: Some((*final(r))@), ..old(self)@ }),
    {
        self.deprecated.get_or_insert(false)
    }

    /// Returns whether the `deprecated` field is set.
    pub fn has_deprecated(&self) -> (r: bool)
        ensures
            r == self@.deprecated is Some,
    {
        self.deprecated.is_some()
    }

    /// Sets the `deprecated` field.
    pub fn set_deprecated(&mut self, value: bool)
        ensures
            final(self)@ == (EnumOptionsView { deprecated: Some(value@), ..old(self)@ }),
    {
        self.deprecated = Some(value);
    }

    /// Takes the `deprecated` field out, leaving it unset.
    pub fn take_deprecated(&mut self) -> (r: Option<bool>)
        ensures
            opt_view(r) == old(self)@.deprecated,
            final(self)@ == (EnumOptionsView { deprecated: None, ..old(self)@ }),
    {
        self.deprecated.take()
    }

    /// Clears the `deprecated` field, leaving it unset.
    pub fn clear_deprecated(&mut self)
        ensures
            final(self)@ == (EnumOptionsView { deprecated: None, ..old(self)@ }),
    {
        self.deprecated = None;
    }

    /// Gets the values of the `uninterpreted_option` field.
    pub fn uninterpreted_option(&self) -> (r: &RepeatedField<UninterpretedOption>)
        ensures
            uninterpreted_option_seq_view(r@) == self@.uninterpreted_option,
    {
        &self.uninterpreted_option
    }

    /// Gets the values of the `uninterpreted_option` field for changing them.
    pub fn uninterpreted_option_mut(&mut self) -> (r: &mut RepeatedField<UninterpretedOption>)
        ensures
            uninterpreted_option_seq_view((*r)@) == old(self)@.uninterpreted_option,
            final(self)@ == (EnumOptionsView { uninterpreted_option: uninterpreted_option_seq_view((*final(r))@), ..old(self)@ }),
    {
        &mut self.uninterpreted_option
    }
}

/// The parts a `EnumOptions` is written as: its fields that are set, in field number order, then its
/// unknown fields.
#[verifier::opaque]
pub open spec fn enum_options_parts(v: EnumOptionsView) -> Seq<(bool, Seq<u8>)>
{
    opt_field_parts::<raw::Bool>(2u32, v.allow_alias) + (opt_field_parts::<raw::Bool>(3u32, v.deprecated) + (uninterpreted_option_seq_parts(999u32, v.uninterpreted_option) + (set_parts(v.unknown_fields))))
}

/// What reading the field with tag value `t` from the front of `rest` into `v` gives: the
/// number of bytes read and the message after, or the error.
pub open spec fn enum_options_field_read(v: EnumOptionsView, t: u32, rest: Seq<u8>, depth: nat, limit: nat, skip: bool, eg: Option<Tag>) -> ReadResult<(int, EnumOptionsView)>
{
    if t == 16u32 {
        match <raw::Bool as Value>::decoding(rest) { Ok((m, x)) => Ok((m, EnumOptionsView { allow_alias: Some(x), ..v })), Err(e) => Err(e) }
    } else if t == 24u32 {
        match <raw::Bool as Value>::decoding(rest) { Ok((m, x)) => Ok((m, EnumOptionsView { deprecated: Some(x), ..v })), Err(e) => Err(e) }
    } else if t == 7994u32 {
        match length_delimited_read(rest) { Err(e) => Err(e), Ok((m, b)) => if depth >= limit { Err(ReadError::RecursionLimitExceeded) } else { match uninterpreted_option_merged(uninterpreted_option_default(), b, depth + 1, limit, skip, eg) { Ok(y) => Ok((m, EnumOptionsView { uninterpreted_option: v.uninterpreted_option.push(y), ..v })), Err(e) => Err(e) } } }
    } else {
        match unknown_field_read(v.unknown_fields, t, rest, depth, limit, skip, eg) {
            Ok((m, u)) => Ok((m, EnumOptionsView { unknown_fields: u, ..v })),
            Err(e) => Err(e),
        }
    }
}

/// What reading all of `s` into `v` as `EnumOptions` fields gives: the message after, or the error.
/// `depth` and `limit` are the reader's depth and recursion limit, `skip` whether it skips
/// unknown fields, and `eg` the end tag of the group it is in.
pub open spec fn enum_options_merged(v: EnumOptionsView, s: Seq<u8>, depth: nat, limit: nat, skip: bool, eg: Option<Tag>) -> ReadResult<EnumOptionsView>
    decreases s.len(),
{
    if s.len() == 0 {
        Ok(v)
    } else {
        match varint_read(s) {
            Err(e) => Err(e),
            Ok((n, w)) => if n < 1 || n > s.len() {
                Err(eof())
            } else {
                match enum_options_field_read(v, w as u32, s.skip(n), depth, limit, skip, eg) {
                    Err(e) => Err(e),
                    Ok((m, v2)) => if m < 0 || n + m > s.len() {
                        Err(eof())
                    } else {
                        enum_options_merged(v2, s.skip(n + m), depth, limit, skip, eg)
                    },
                }
            },
        }
    }
}

/// Reads a `EnumOptions` from the reader as a length delimited value, merging it into `this`, one
/// level deeper.
fn merge_enum_options_delimited(this: &mut EnumOptions, input: &mut CodedReader) -> (r: ReadResult<()>)
    ensures
        match length_delimited_read(old(input).available()) {
            Err(e) => r == Err::<(), ReadError>(e) && same_config(*old(input), *final(input)),
            Ok((m, b)) => if old(input).depth() >= old(input).recursion_limit() {
                r == Err::<(), ReadError>(ReadError::RecursionLimitExceeded) && same_config(*old(input), *final(input))
            } else {
                match enum_options_merged(old(this)@, b, old(input).depth() + 1, old(input).recursion_limit(), skips(*old(input)), old(input).end_group_view()) {
                    Ok(y) => r is Ok && final(this)@ == y && final(input).position() == old(input).position() + m
                        && same_state(*old(input), *final(input)),
                    Err(e) => r == Err::<(), ReadError>(e) && same_config(*old(input), *final(input)),
                }
            },
        },
{
    let rem0 = input.remaining();
    let ghost s = input.available();
    let ghost start = *input;
    let length = match input.read_length() {
        Ok(l) => l,
        Err(e) => return Err(e),
    };
    let rem1 = input.remaining();
    let ghost n0 = input.position() - start.position();
    proof {
        lemma_varint_read_len(s);
        assert(input.available() =~= s.skip(n0));
    }
    let previous = match input.push_length(length) {
        Ok(p) => p,
        Err(e) => return Err(e),
    };
    let rem2 = input.remaining();
    let ghost b = s.subrange(n0, n0 + length@);
    proof {
        assert(input.available() =~= b);
        assert(length_delimited_read(s) == Ok::<(int, Seq<u8>), ReadError>((n0 + length@, b)));
    }
    let ghost pushed = *input;
    match input.increment_recursion_count() {
        Ok(()) => {},
        Err(e) => {
            input.pop_length(previous);
            return Err(e);
        },
    }
    let r = this.merge_from(input);
    let rem3 = input.remaining();
    input.decrement_recursion_count();
    input.pop_length(previous);
    r
}

/// The parts an optional `EnumOptions` field with field number `num` is written as: nothing where it
/// is not set, else its tag, its length and its parts.
pub open spec fn enum_options_opt_parts(num: u32, o: Option<EnumOptionsView>) -> Seq<(bool, Seq<u8>)> {
    match o {
        Some(y) => entry_parts(num, enum_options_parts(y)),
        None => Seq::empty(),
    }
}

/// Adds the size of an optional `EnumOptions` field with field number `num` to the builder.
fn enum_options_opt_size(o: &Option<EnumOptions>, b: LengthBuilder, num: FieldNumber) -> (r: Option<LengthBuilder>)
    ensures
        size_added(b@ as int, parts_encodable(enum_options_opt_parts(num@, opt_view(*o))), parts_bytes(enum_options_opt_parts(num@, opt_view(*o))).len() as int, r),
{
    match o {
        Some(y) => {
            let len = y.calculate_size();
            add_entry_size(b, num, len, Ghost(enum_options_parts(y@)))
        },
        None => {
            proof {
                assert(parts_encodable(Seq::<(bool, Seq<u8>)>::empty()));
                assert(parts_bytes(Seq::<(bool, Seq<u8>)>::empty()).len() == 0);
            }
            Some(b)
        },
    }
}

/// Writes an optional `EnumOptions` field with field number `num`: nothing where it is not set, else
/// its tag, its length and its fields.
fn write_enum_options_opt(o: &Option<EnumOptions>, output: &mut CodedWriter, num: FieldNumber) -> (r: WriteResult)
    ensures
        (final(output).written(), r) == parts_written(old(output).written(), old(output).capacity(), enum_options_opt_parts(num@, opt_view(*o))),
        final(output).capacity() == old(output).capacity(),
        (*final(final(output).target()))@ == (*final(old(output).target()))@,
{
    match o {
        Some(y) => {
            let ghost p = enum_options_parts(y@);
            let ghost head = entry_head(num@, p);
            let ghost w0 = output.written();
            let ghost cap = output.capacity();
            proof {
                lemma_parts_written_append(w0, cap, head, p);
                reveal_with_fuel(parts_written, 3);
                assert(head.drop_first().drop_first() =~= Seq::<(bool, Seq<u8>)>::empty());
                lemma_varint_roundtrip(tag_value(num@, WireType::LengthDelimited) as u64);
            }
            match output.write_tag(Tag::new(num, WireType::LengthDelimited)) {
                Ok(()) => {},
                Err(e) => return Err(e),
            }
            let len = match y.calculate_size() {
                Some(len) => len,
                None => return Err(WriteError::ValueTooLarge),
            };
            proof {
                lemma_varint_roundtrip(len@ as u64);
            }
            match output.write_length(len) {
                Ok(()) => {},
                Err(e) => return Err(e),
            }
            y.write_to(output)
        },
        None => Ok(()),
    }
}

impl EnumOptions {
    /// Gets the unknown fields of the message.
    pub fn unknown_fields(&self) -> (r: &UnknownFieldSet)
        ensures
            r@ == self@.unknown_fields,
    {
        &self.unknown_fields
    }

    /// Gets the unknown fields of the message for changing them.
    pub fn unknown_fields_mut(&mut self) -> (r: &mut UnknownFieldSet)
        ensures
            (*r)@ == old(self)@.unknown_fields,
            final(self)@ == (EnumOptionsView { unknown_fields: (*final(r))@, ..old(self)@ }),
    {
        &mut self.unknown_fields
    }

    /// Returns whether the message is initialized: whether all its required fields are set.
    pub fn is_initialized(&self) -> (r: bool)
        ensures
            r,
    {
        if !crate::is_initialized(&self.uninterpreted_option) {
            return false;
        }
        true
    }

    /// Calculates the size of the message as it is written: `None` if a part cannot be
    /// written or the size does not fit in a length.
    #[verifier::spinoff_prover]
    pub fn calculate_size(&self) -> (r: Option<Length>)
        ensures
            opt_length(r) == parts_size(enum_options_parts(self@)),
    {
        let ghost v = self@;
        let ghost all = enum_options_parts(v);
        let b0 = LengthBuilder::new();
        let ghost d0 = Seq::<(bool, Seq<u8>)>::empty();
        proof {
            reveal(enum_options_parts);
            assert(all =~= d0 + all);
        }
        let ghost p1 = opt_field_parts::<raw::Bool>(2u32, v.allow_alias);
        let ghost rest1 = opt_field_parts::<raw::Bool>(3u32, v.deprecated) + (uninterpreted_option_seq_parts(999u32, v.uninterpreted_option) + (set_parts(v.unknown_fields)));
        proof {
            assert(self@.allow_alias == opt_inner_view::<raw::Bool>(self.allow_alias));
            assert(all == d0 + (p1 + rest1));
            assert(d0 + (p1 + rest1) =~= d0 + p1 + rest1);
        }
        let r1 = add_opt_field::<raw::Bool>(b0, FieldNumber::new_unchecked(2), &self.allow_alias);
        proof {
            lemma_size_chain(0, d0, p1, Some(b0), r1);
            if r1 is None {
                lemma_size_chain(0, d0 + p1, rest1, r1, r1);
            }
        }
        let b1 = match r1 {
            Some(b) => b,
            None => return None,
        };
        let ghost d1 = d0 + p1;
        let ghost p2 = opt_field_parts::<raw::Bool>(3u32, v.deprecated);
        let ghost rest2 = uninterpreted_option_seq_parts(999u32, v.uninterpreted_option) + (set_parts(v.unknown_fields));
        proof {
            assert(self@.deprecated == opt_inner_view::<raw::Bool>(self.deprecated));
            assert(all == d1 + (p2 + rest2));
            assert(d1 + (p2 + rest2) =~= d1 + p2 + rest2);
        }
        let r2 = add_opt_field::<raw::Bool>(b1, FieldNumber::new_unchecked(3), &self.deprecated);
        proof {
            lemma_size_chain(0, d1, p2, Some(b1), r2);
            if r2 is None {
                lemma_size_chain(0, d1 + p2, rest2, r2, r2);
            }
        }
        let b2 = match r2 {
            Some(b) => b,
            None => return None,
        };
        let ghost d2 = d1 + p2;
        let ghost p3 = uninterpreted_option_seq_parts(999u32, v.uninterpreted_option);
        let ghost rest3 = set_parts(v.unknown_fields);
        proof {
            assert(all == d2 + (p3 + rest3));
            assert(d2 + (p3 + rest3) =~= d2 + p3 + rest3);
        }
        let r3 = uninterpreted_option_values_size(&self.uninterpreted_option, b2, FieldNumber::new_unchecked(999));
        proof {
            lemma_size_chain(0, d2, p3, Some(b2), r3);
            if r3 is None {
                lemma_size_chain(0, d2 + p3, rest3, r3, r3);
            }
        }
        let b3 = match r3 {
            Some(b) => b,
            None => return None,
        };
        let ghost d3 = d2 + p3;
        let ghost p4 = set_parts(v.unknown_fields);
        let ghost rest4 = Seq::<(bool, Seq<u8>)>::empty();
        proof {
            assert(all == d3 + p4);
            assert(p4 + rest4 =~= p4);
            assert(d3 + (p4 + rest4) =~= d3 + p4 + rest4);
        }
        let r4 = self.unknown_fields.calculate_size(b3);
        proof {
            lemma_size_chain(0, d3, p4, Some(b3), r4);
            if r4 is None {
                lemma_size_chain(0, d3 + p4, rest4, r4, r4);
            }
        }
        let b4 = match r4 {
            Some(b) => b,
            None => return None,
        };
        let ghost d4 = d3 + p4;
        Some(b4.build())
    }

    /// Writes the message to the writer: its fields that are set, in field number order, then
    /// its unknown fields.
    #[verifier::spinoff_prover]
    pub fn write_to(&self, output: &mut CodedWriter) -> (r: WriteResult)
        ensures
            (final(output).written(), r) == parts_written(old(output).written(), old(output).capacity(), enum_options_parts(self@)),
            final(output).capacity() == old(output).capacity(),
            (*final(final(output).target()))@ == (*final(old(output).target()))@,
    {
        let ghost v = self@;
        let ghost all = enum_options_parts(v);
        let ghost start = output.written();
        let ghost cap = output.capacity();
        let ghost d0 = Seq::<(bool, Seq<u8>)>::empty();
        proof {
            reveal(enum_options_parts);
            assert(all =~= d0 + all);
        }
        let ghost p1 = opt_field_parts::<raw::Bool>(2u32, v.allow_alias);
        let ghost rest1 = opt_field_parts::<raw::Bool>(3u32, v.deprecated) + (uninterpreted_option_seq_parts(999u32, v.uninterpreted_option) + (set_parts(v.unknown_fields)));
        proof {
            assert(self@.allow_alias == opt_inner_view::<raw::Bool>(self.allow_alias));
            assert(all == d0 + (p1 + rest1));
            assert(d0 + (p1 + rest1) =~= d0 + p1 + rest1);
            lemma_parts_written_append(start, cap, d0, p1);
            lemma_parts_written_append(start, cap, d0 + p1, rest1);
        }
        match write_opt_field::<raw::Bool>(output, FieldNumber::new_unchecked(2), &self.allow_alias) {
            Ok(()) => {},
            Err(e) => return Err(e),
        }
        let ghost d1 = d0 + p1;
        let ghost p2 = opt_field_parts::<raw::Bool>(3u32, v.deprecated);
        let ghost rest2 = uninterpreted_option_seq_parts(999u32, v.uninterpreted_option) + (set_parts(v.unknown_fields));
        proof {
            assert(self@.deprecated == opt_inner_view::<raw::Bool>(self.deprecated));
            assert(all == d1 + (p2 + rest2));
            assert(d1 + (p2 + rest2) =~= d1 + p2 + rest2);
            lemma_parts_written_append(start, cap, d1, p2);
            lemma_parts_written_append(start, cap, d1 + p2, rest2);
        }
        match write_opt_field::<raw::Bool>(output, FieldNumber::new_unchecked(3), &self.deprecated) {
            Ok(()) => {},
            Err(e) => return Err(e),
        }
        let ghost d2 = d1 + p2;
        let ghost p3 = uninterpreted_option_seq_parts(999u32, v.uninterpreted_option);
        let ghost rest3 = set_parts(v.unknown_fields);
        proof {
            assert(all == d2 + (p3 + rest3));
            assert(d2 + (p3 + rest3) =~= d2 + p3 + rest3);
            lemma_parts_written_append(start, cap, d2, p3);
            lemma_parts_written_append(start, cap, d2 + p3, rest3);
        }
        match write_uninterpreted_option_values(&self.uninterpreted_option, output, FieldNumber::new_unchecked(999)) {
            Ok(()) => {},
            Err(e) => return Err(e),
        }
        let ghost d3 = d2 + p3;
        let ghost p4 = set_parts(v.unknown_fields);
        let ghost rest4 = Seq::<(bool, Seq<u8>)>::empty();
        proof {
            assert(all == d3 + p4);
            assert(p4 + rest4 =~= p4);
            assert(d3 + (p4 + rest4) =~= d3 + p4 + rest4);
            lemma_parts_written_append(start, cap, d3, p4);
            lemma_parts_written_append(start, cap, d3 + p4, rest4);
        }
        match self.unknown_fields.write_to(output) {
            Ok(()) => {},
            Err(e) => return Err(e),
        }
        let ghost d4 = d3 + p4;
        proof {
            assert(all =~= d4 + Seq::<(bool, Seq<u8>)>::empty());
            assert(all == d4);
            lemma_ok_unit(parts_written(start, cap, all).1);
        }
        Ok(())
    }

    /// Reads the value of the field whose tag value `t` was just read into the message.
    #[verifier::spinoff_prover]
    fn merge_field(&mut self, t: u32, input: &mut CodedReader) -> (r: ReadResult<()>)
        ensures
            match enum_options_field_read(old(self)@, t, old(input).available(), old(input).depth(), old(input).recursion_limit(), skips(*old(input)), old(input).end_group_view()) {
                Ok((m, v2)) => r is Ok && final(self)@ == v2 && m >= 0 && final(input).position()
                    == old(input).position() + m && same_state(*old(input), *final(input)),
                Err(e) => r == Err::<(), ReadError>(e) && same_config(*old(input), *final(input)),
            },
    {
        let rem0 = input.remaining();
        let ghost rest = input.available();
        if t == 16u32 {
            proof {
                <raw::Bool as Value>::lemma_decoding_len(rest);
            }
            input.set_last_tag(Some(Tag::new(FieldNumber::new_unchecked(2), WireType::Varint)));
            match <raw::Bool as Value>::merge_from(self.allow_alias.get_or_insert(false), input) {
                Ok(()) => {},
                Err(e) => return Err(e),
            }
        } else if t == 24u32 {
            proof {
                <raw::Bool as Value>::lemma_decoding_len(rest);
            }
            input.set_last_tag(Some(Tag::new(FieldNumber::new_unchecked(3), WireType::Varint)));
            match <raw::Bool as Value>::merge_from(self.deprecated.get_or_insert(false), input) {
                Ok(()) => {},
                Err(e) => return Err(e),
            }
        } else if t == 7994u32 {
            proof {
                lemma_length_delimited_read_len(rest);
            }
            input.set_last_tag(Some(Tag::new(FieldNumber::new_unchecked(999), WireType::LengthDelimited)));
            let mut y = UninterpretedOption::default();
            match merge_uninterpreted_option_delimited(&mut y, input) {
                Ok(()) => {},
                Err(e) => return Err(e),
            }
            let ghost old_values = self.uninterpreted_option@;
            self.uninterpreted_option.push(y);
            proof {
                assert(self.uninterpreted_option@.subrange(0, self.uninterpreted_option@.len() - 1) =~= old_values);
            }
        } else {
            let tag = match Tag::try_from(t) {
                Ok(tag) => tag,
                Err(_) => return Err(ReadError::InvalidTag(t)),
            };
            input.set_last_tag(Some(tag));
            match self.unknown_fields.try_add_field_from(input) {
                Ok(TryRead::Consumed) => {},
                Ok(TryRead::Yielded) => match input.skip() {
                    Ok(()) => {},
                    Err(e) => return Err(e),
                },
                Err(e) => return Err(e),
            }
        }
        let rem1 = input.remaining();
        Ok(())
    }

    /// Merges the message with fields read from the reader, up to its limit. Scalar fields
    /// read replace those set, message fields are merged, repeated fields are added to,
    /// and unknown fields are stored or skipped as the reader says. On an error the message
    /// may hold some of the fields read before it.
    #[verifier::spinoff_prover]
    #[verifier::rlimit(50)]
    pub fn merge_from(&mut self, input: &mut CodedReader) -> (r: ReadResult<()>)
        ensures
            merge_outcome(enum_options_merged(old(self)@, old(input).available(), old(input).depth(), old(input).recursion_limit(), skips(*old(input)), old(input).end_group_view()), final(self)@, *old(input), *final(input), r),
    {
        let rem0 = input.remaining();
        let ghost start = *input;
        let ghost total = enum_options_merged(self@, input.available(), input.depth(), input.recursion_limit(), skips(*input), input.end_group_view());
        loop
            invariant
                start == *old(input),
                same_state(start, *input),
                0 <= start.position() <= input.position(),
                input.limit_end() <= input.input().len(),
                total == enum_options_merged(old(self)@, start.available(), start.depth(), start.recursion_limit(), skips(start), start.end_group_view()),
                total == enum_options_merged(self@, input.available(), start.depth(), start.recursion_limit(), skips(start), start.end_group_view()),
            decreases input.available().len(),
        {
            let ghost s = input.available();
            let ghost before = *input;
            let ghost v = self@;
            let t = match input.read_field() {
                Ok(Some(t)) => t,
                Ok(None) => return Ok(()),
                Err(e) => return Err(e),
            };
            let rem1 = input.remaining();
            let ghost n = input.position() - before.position();
            proof {
                lemma_varint_read_len(s);
                assert(input.available() =~= s.skip(n));
            }
            let ghost mid = *input;
            match self.merge_field(t, input) {
                Ok(()) => {},
                Err(e) => return Err(e),
            }
            let rem2 = input.remaining();
            proof {
                let m = input.position() - mid.position();
                assert(input.available() =~= s.skip(n + m));
            }
        }
    }
}

impl crate::Message for EnumOptions {
    open spec fn merged(v: EnumOptionsView, s: Seq<u8>, depth: nat, limit: nat, skip: bool, eg: Option<Tag>) -> ReadResult<EnumOptionsView> {
        enum_options_merged(v, s, depth, limit, skip, eg)
    }

    open spec fn parts(v: EnumOptionsView) -> Seq<(bool, Seq<u8>)> {
        enum_options_parts(v)
    }

    open spec fn initialized(v: EnumOptionsView) -> bool {
        true
    }

    open spec fn unknown_fields_of(v: EnumOptionsView) -> Seq<(u32, Seq<FieldValue>)> {
        v.unknown_fields
    }

    open spec fn with_unknown_fields(v: EnumOptionsView, u: Seq<(u32, Seq<FieldValue>)>) -> EnumOptionsView {
        EnumOptionsView { unknown_fields: u, ..v }
    }

    fn merge_from(&mut self, input: &mut CodedReader) -> (r: ReadResult<()>) {
        EnumOptions::merge_from(self, input)
    }

    fn calculate_size(&self) -> (r: Option<Length>) {
        EnumOptions::calculate_size(self)
    }

    fn write_to(&self, output: &mut CodedWriter) -> (r: WriteResult) {
        EnumOptions::write_to(self, output)
    }

    fn is_initialized(&self) -> (r: bool) {
        EnumOptions::is_initialized(self)
    }

    fn unknown_fields(&self) -> (r: &UnknownFieldSet) {
        EnumOptions::unknown_fields(self)
    }

    fn unknown_fields_mut(&mut self) -> (r: &mut UnknownFieldSet) {
        EnumOptions::unknown_fields_mut(self)
    }
}

impl DebugMessage for EnumOptions {
    open spec fn spec_full_name() -> Seq<char> {
        "google.protobuf.EnumOptions"@
    }

    open spec fn spec_name() -> Seq<char> {
        "EnumOptions"@
    }

    fn full_name() -> (r: &'static str) {
        "google.protobuf.EnumOptions"
    }

    fn name() -> (r: &'static str) {
        "EnumOptions"
    }
}

/// Whether `t` is the tag of a field a `EnumOptions` reads.
pub open spec fn enum_options_known_tag(t: u32) -> bool {
    t == 16u32 || t == 24u32 || t == 7994u32
}

/// Whether a `EnumOptions` is read back as it is written, at nesting depth `depth` of a reader with
/// recursion limit `limit`: its messages are read back as written one level deeper, within
/// the limit; and its unknown fields are read back as written, none with the tag of one of
/// its fields.
pub open spec fn enum_options_roundtrips(v: EnumOptionsView, depth: nat, limit: nat) -> bool
{
    &&& (v.uninterpreted_option.len() > 0 ==> depth < limit)
    &&& forall|i: int| 0 <= i < v.uninterpreted_option.len() ==> uninterpreted_option_roundtrips(#[trigger] v.uninterpreted_option[i], depth + 1, limit)
    &&& set_readable(v.unknown_fields)
    &&& forall|k: int| 0 <= k < set_pairs(v.unknown_fields).len() ==> !enum_options_known_tag(tag_value(
        #[trigger] set_pairs(v.unknown_fields)[k].0,
        field_value_wire_type(set_pairs(v.unknown_fields)[k].1),
    ))
}

/// Reading a `EnumOptions` field whose tag is read from the front of `s` and whose value is read after
/// it continues with the rest of `s`.
proof fn lemma_enum_options_step(v: EnumOptionsView, s: Seq<u8>, k: int, t: u32, m: int, v2: EnumOptionsView, depth: nat, limit: nat)
    requires
        varint_read(s) == Ok::<(int, u64), ReadError>((k, t as u64)),
        1 <= k <= s.len(),
        enum_options_field_read(v, t, s.skip(k), depth, limit, false, None) == Ok::<(int, EnumOptionsView), ReadError>((m, v2)),
        0 <= m,
        k + m <= s.len(),
    ensures
        enum_options_merged(v, s, depth, limit, false, None) == enum_options_merged(v2, s.skip(k + m), depth, limit, false, None),
{
    assert((t as u64) as u32 == t);
}

/// Reading the entries of `UninterpretedOption` values written as field `uninterpreted_option` of a `EnumOptions` adds the values.
#[verifier::spinoff_prover]
#[verifier::rlimit(60)]
proof fn lemma_enum_options_read_uninterpreted_option(v: EnumOptionsView, ys: Seq<UninterpretedOptionView>, rest: Seq<u8>, depth: nat, limit: nat)
    requires
        parts_encodable(uninterpreted_option_seq_parts(999u32, ys)),
        ys.len() > 0 ==> depth < limit,
        forall|i: int| 0 <= i < ys.len() ==> uninterpreted_option_roundtrips(#[trigger] ys[i], depth + 1, limit),
    ensures
        enum_options_merged(v, parts_bytes(uninterpreted_option_seq_parts(999u32, ys)) + rest, depth, limit, false, None) == enum_options_merged(
            EnumOptionsView { uninterpreted_option: v.uninterpreted_option + ys, ..v },
            rest,
            depth, limit, false, None,
        ),
    decreases ys.len(),
{
    if ys.len() == 0 {
        assert(parts_bytes(uninterpreted_option_seq_parts(999u32, ys)) + rest =~= rest);
        assert(v.uninterpreted_option + ys =~= v.uninterpreted_option);
    } else {
        let y = ys[0];
        let tail = ys.drop_first();
        assert forall|i: int| 0 <= i < tail.len() implies uninterpreted_option_roundtrips(#[trigger] tail[i], depth + 1, limit) by {
            assert(tail[i] == ys[i + 1]);
        }
        lemma_uninterpreted_option_seq_parts_front(999u32, ys);
        let ep = entry_parts(999u32, uninterpreted_option_parts(y));
        lemma_parts_encodable_two(ep, uninterpreted_option_seq_parts(999u32, tail));
        lemma_parts_bytes_append(ep, uninterpreted_option_seq_parts(999u32, tail));
        assert(ep[1].0);
        let after = parts_bytes(uninterpreted_option_seq_parts(999u32, tail)) + rest;
        let s = parts_bytes(uninterpreted_option_seq_parts(999u32, ys)) + rest;
        assert(s =~= parts_bytes(ep) + after);
        lemma_entry_bytes_read(999u32, uninterpreted_option_parts(y), after);
        lemma_tag_value(999u32, WireType::LengthDelimited);
        lemma_uninterpreted_option_roundtrip(y, depth + 1, limit);
        let hl = parts_bytes(ep).len() as int;
        let k = varint_len(7994u64) as int;
        let v2 = EnumOptionsView { uninterpreted_option: v.uninterpreted_option.push(y), ..v };
        lemma_enum_options_step(v, s, k, 7994u32, hl - k, v2, depth, limit);
        lemma_enum_options_read_uninterpreted_option(v2, tail, rest, depth, limit);
        assert(v.uninterpreted_option.push(y) + tail =~= v.uninterpreted_option + ys);
    }
}

/// Reading the field `allow_alias` of a `EnumOptions` written from `o` sets it to `o`, whatever it held; nothing
/// is written, and nothing changes, for `None`.
proof fn lemma_enum_options_read_allow_alias(d: EnumOptionsView, o: Option<bool>, rest: Seq<u8>, depth: nat, limit: nat)
    requires
        parts_encodable(opt_field_parts::<raw::Bool>(2u32, o)),
    ensures
        enum_options_merged(d, parts_bytes(opt_field_parts::<raw::Bool>(2u32, o)) + rest, depth, limit, false, None) == enum_options_merged(if o is Some { EnumOptionsView { allow_alias: o, ..d } } else { d }, rest, depth, limit, false, None),
{
    match o {
        None => {
            assert(parts_bytes(opt_field_parts::<raw::Bool>(2u32, o)) + rest =~= rest);
        },
        Some(x) => {
            let p = field_parts::<raw::Bool>(2u32, x);
            assert(p[1].0);
            let s = parts_bytes(p) + rest;
            lemma_field_bytes_read::<raw::Bool>(2u32, x, rest);
            lemma_tag_value(2u32, WireType::Varint);
            let hl = parts_bytes(p).len() as int;
            let k = varint_len(16u64) as int;
            let v2 = EnumOptionsView { allow_alias: Some(x), ..d };
            lemma_enum_options_step(d, s, k, 16u32, hl - k, v2, depth, limit);
        },
    }
}

/// Reading the field `deprecated` of a `EnumOptions` written from `o` sets it to `o`, whatever it held; nothing
/// is written, and nothing changes, for `None`.
proof fn lemma_enum_options_read_deprecated(d: EnumOptionsView, o: Option<bool>, rest: Seq<u8>, depth: nat, limit: nat)
    requires
        parts_encodable(opt_field_parts::<raw::Bool>(3u32, o)),
    ensures
        enum_options_merged(d, parts_bytes(opt_field_parts::<raw::Bool>(3u32, o)) + rest, depth, limit, false, None) == enum_options_merged(if o is Some { EnumOptionsView { deprecated: o, ..d } } else { d }, rest, depth, limit, false, None),
{
    match o {
        None => {
            assert(parts_bytes(opt_field_parts::<raw::Bool>(3u32, o)) + rest =~= rest);
        },
        Some(x) => {
            let p = field_parts::<raw::Bool>(3u32, x);
            assert(p[1].0);
            let s = parts_bytes(p) + rest;
            lemma_field_bytes_read::<raw::Bool>(3u32, x, rest);
            lemma_tag_value(3u32, WireType::Varint);
            let hl = parts_bytes(p).len() as int;
            let k = varint_len(24u64) as int;
            let v2 = EnumOptionsView { deprecated: Some(x), ..d };
            lemma_enum_options_step(d, s, k, 24u32, hl - k, v2, depth, limit);
        },
    }
}

/// Reading unknown field values written one after the other into a `EnumOptions`, none with the tag
/// of one of its fields, adds them to its unknown fields.
proof fn lemma_enum_options_read_unknown(v: EnumOptionsView, ps: Seq<(u32, FieldValue)>, rest: Seq<u8>, depth: nat, limit: nat)
    requires
        forall|k: int| 0 <= k < ps.len() ==> value_readable(#[trigger] ps[k].0, ps[k].1) && !enum_options_known_tag(
            tag_value(ps[k].0, field_value_wire_type(ps[k].1)),
        ),
    ensures
        enum_options_merged(v, parts_bytes(pairs_parts(ps)) + rest, depth, limit, false, None) == enum_options_merged(
            EnumOptionsView { unknown_fields: push_pairs(v.unknown_fields, ps), ..v },
            rest,
            depth, limit, false, None,
        ),
    decreases ps.len(),
{
    if ps.len() == 0 {
        assert(parts_bytes(pairs_parts(ps)) + rest =~= rest);
    } else {
        let n = ps[0].0;
        let fv = ps[0].1;
        let tail = ps.drop_first();
        assert forall|k: int| 0 <= k < tail.len() implies value_readable(#[trigger] tail[k].0, tail[k].1) && !enum_options_known_tag(
            tag_value(tail[k].0, field_value_wire_type(tail[k].1)),
        ) by {
            assert(tail[k] == ps[k + 1]);
        }
        assert(value_readable(ps[0].0, ps[0].1));
        lemma_parts_bytes_append(field_value_parts(n, fv), pairs_parts(tail));
        let after = parts_bytes(pairs_parts(tail)) + rest;
        let s = parts_bytes(pairs_parts(ps)) + rest;
        assert(s =~= parts_bytes(field_value_parts(n, fv)) + after);
        lemma_read_value_bytes(n, fv, after);
        let t = tag_value(n, field_value_wire_type(fv));
        let hl = parts_bytes(field_value_parts(n, fv)).len() as int;
        let k = varint_len(t as u64) as int;
        let v2 = EnumOptionsView { unknown_fields: view_push(v.unknown_fields, n, fv), ..v };
        lemma_enum_options_step(v, s, k, t, hl - k, v2, depth, limit);
        lemma_enum_options_read_unknown(v2, tail, rest, depth, limit);
    }
}

/// The writability of the parts of a `EnumOptions` is that of each field's parts.
proof fn lemma_enum_options_parts_encodable(v: EnumOptionsView)
    ensures
        parts_encodable(enum_options_parts(v)) == (parts_encodable(opt_field_parts::<raw::Bool>(2u32, v.allow_alias)) && parts_encodable(opt_field_parts::<raw::Bool>(3u32, v.deprecated)) && parts_encodable(uninterpreted_option_seq_parts(999u32, v.uninterpreted_option)) && parts_encodable(set_parts(v.unknown_fields))),
{
    reveal(enum_options_parts);
    let p0 = opt_field_parts::<raw::Bool>(2u32, v.allow_alias);
    let p1 = opt_field_parts::<raw::Bool>(3u32, v.deprecated);
    let p2 = uninterpreted_option_seq_parts(999u32, v.uninterpreted_option);
    let p3 = set_parts(v.unknown_fields);
    let q3 = p3;
    let q2 = p2 + q3;
    lemma_parts_encodable_two(p2, q3);
    let q1 = p1 + q2;
    lemma_parts_encodable_two(p1, q2);
    let q0 = p0 + q1;
    lemma_parts_encodable_two(p0, q1);
    assert(enum_options_parts(v) == q0);
}

/// The bytes of the parts of a `EnumOptions` are those of each field's parts, one after the other.
proof fn lemma_enum_options_parts_bytes(v: EnumOptionsView)
    ensures
        parts_bytes(enum_options_parts(v)) == parts_bytes(opt_field_parts::<raw::Bool>(2u32, v.allow_alias)) + (parts_bytes(opt_field_parts::<raw::Bool>(3u32, v.deprecated)) + (parts_bytes(uninterpreted_option_seq_parts(999u32, v.uninterpreted_option)) + parts_bytes(set_parts(v.unknown_fields)))),
{
    reveal(enum_options_parts);
    let p0 = opt_field_parts::<raw::Bool>(2u32, v.allow_alias);
    let p1 = opt_field_parts::<raw::Bool>(3u32, v.deprecated);
    let p2 = uninterpreted_option_seq_parts(999u32, v.uninterpreted_option);
    let p3 = set_parts(v.unknown_fields);
    let q3 = p3;
    let q2 = p2 + q3;
    lemma_parts_bytes_append(p2, q3);
    let q1 = p1 + q2;
    lemma_parts_bytes_append(p1, q2);
    let q0 = p0 + q1;
    lemma_parts_bytes_append(p0, q1);
    assert(enum_options_parts(v) == q0);
}

/// The message a `EnumOptions` `d` becomes when `v` is merged into it: each field `v` holds once
/// replaces the one `d` holds, the values of each repeated field of `v` follow those of `d`,
/// and the unknown fields of `v` are added to those of `d`, field number by field number.
pub open spec fn enum_options_merge_view(d: EnumOptionsView, v: EnumOptionsView) -> EnumOptionsView {
    EnumOptionsView { allow_alias: newer_or(v.allow_alias, d.allow_alias), deprecated: newer_or(v.deprecated, d.deprecated), uninterpreted_option: d.uninterpreted_option + v.uninterpreted_option, unknown_fields: view_merge(d.unknown_fields, v.unknown_fields) }
}

/// Reading the bytes of the parts of a `EnumOptions` `v`, field by field, into `d` merges `v` into `d`.
#[verifier::spinoff_prover]
#[verifier::rlimit(60)]
proof fn lemma_enum_options_merge_all(d: EnumOptionsView, v: EnumOptionsView, depth: nat, limit: nat)
    requires
        parts_encodable(opt_field_parts::<raw::Bool>(2u32, v.allow_alias)),
        parts_encodable(opt_field_parts::<raw::Bool>(3u32, v.deprecated)),
        parts_encodable(uninterpreted_option_seq_parts(999u32, v.uninterpreted_option)),
        enum_options_roundtrips(v, depth, limit),
        parts_bytes(enum_options_parts(v)) == parts_bytes(opt_field_parts::<raw::Bool>(2u32, v.allow_alias)) + (parts_bytes(opt_field_parts::<raw::Bool>(3u32, v.deprecated)) + (parts_bytes(uninterpreted_option_seq_parts(999u32, v.uninterpreted_option)) + parts_bytes(set_parts(v.unknown_fields)))),
    ensures
        enum_options_merged(d, parts_bytes(enum_options_parts(v)), depth, limit, false, None) == Ok::<EnumOptionsView, ReadError>(enum_options_merge_view(d, v)),
{
    let p0 = opt_field_parts::<raw::Bool>(2u32, v.allow_alias);
    let p1 = opt_field_parts::<raw::Bool>(3u32, v.deprecated);
    let p2 = uninterpreted_option_seq_parts(999u32, v.uninterpreted_option);
    let p3 = set_parts(v.unknown_fields);
    let b0 = parts_bytes(p0);
    let b1 = parts_bytes(p1);
    let b2 = parts_bytes(p2);
    let b3 = parts_bytes(p3);
    let r3 = b3;
    let r2 = b2 + r3;
    let r1 = b1 + r2;
    let r0 = b0 + r1;
    let d0 = d;
    let d1 = EnumOptionsView { allow_alias: newer_or(v.allow_alias, d.allow_alias), ..d0 };
    assert(enum_options_merged(d0, r0, depth, limit, false, None) == enum_options_merged(d1, r1, depth, limit, false, None)) by {
        lemma_enum_options_read_allow_alias(d0, v.allow_alias, r1, depth, limit);
        assert((if v.allow_alias is Some { EnumOptionsView { allow_alias: v.allow_alias, ..d0 } } else { d0 }) == d1);
    }
    let d2 = EnumOptionsView { deprecated: newer_or(v.deprecated, d.deprecated), ..d1 };
    assert(enum_options_merged(d1, r1, depth, limit, false, None) == enum_options_merged(d2, r2, depth, limit, false, None)) by {
        lemma_enum_options_read_deprecated(d1, v.deprecated, r2, depth, limit);
        assert((if v.deprecated is Some { EnumOptionsView { deprecated: v.deprecated, ..d1 } } else { d1 }) == d2);
    }
    let d3 = EnumOptionsView { uninterpreted_option: d.uninterpreted_option + v.uninterpreted_option, ..d2 };
    assert(enum_options_merged(d2, r2, depth, limit, false, None) == enum_options_merged(d3, r3, depth, limit, false, None)) by {
        lemma_enum_options_read_uninterpreted_option(d2, v.uninterpreted_option, r3, depth, limit);
        assert(EnumOptionsView { uninterpreted_option: d2.uninterpreted_option + v.uninterpreted_option, ..d2 } == d3);
    }
    let ps = set_pairs(v.unknown_fields);
    assert(enum_options_merged(d3, r3, depth, limit, false, None) == Ok::<EnumOptionsView, ReadError>(enum_options_merge_view(d, v))) by {
        lemma_set_pairs(v.unknown_fields, d.unknown_fields);
        lemma_entries_readable(v.unknown_fields);
        assert forall|k: int| 0 <= k < ps.len() implies value_readable(#[trigger] ps[k].0, ps[k].1) && !enum_options_known_tag(
            tag_value(ps[k].0, field_value_wire_type(ps[k].1)),
        ) by {
            assert(!enum_options_known_tag(tag_value(set_pairs(v.unknown_fields)[k].0, field_value_wire_type(set_pairs(v.unknown_fields)[k].1))));
        }
        lemma_enum_options_read_unknown(d3, ps, Seq::empty(), depth, limit);
        assert(b3 + Seq::<u8>::empty() =~= b3);
        let dl = EnumOptionsView { unknown_fields: push_pairs(d3.unknown_fields, ps), ..d3 };
        assert(dl == enum_options_merge_view(d, v));
    }
}

/// Reading the bytes of the parts of a `EnumOptions`, field by field, gives the message back.
proof fn lemma_enum_options_read_all(v: EnumOptionsView, depth: nat, limit: nat)
    requires
        parts_encodable(opt_field_parts::<raw::Bool>(2u32, v.allow_alias)),
        parts_encodable(opt_field_parts::<raw::Bool>(3u32, v.deprecated)),
        parts_encodable(uninterpreted_option_seq_parts(999u32, v.uninterpreted_option)),
        enum_options_roundtrips(v, depth, limit),
        parts_bytes(enum_options_parts(v)) == parts_bytes(opt_field_parts::<raw::Bool>(2u32, v.allow_alias)) + (parts_bytes(opt_field_parts::<raw::Bool>(3u32, v.deprecated)) + (parts_bytes(uninterpreted_option_seq_parts(999u32, v.uninterpreted_option)) + parts_bytes(set_parts(v.unknown_fields)))),
    ensures
        enum_options_merged(enum_options_default(), parts_bytes(enum_options_parts(v)), depth, limit, false, None) == Ok::<EnumOptionsView, ReadError>(v),
{
    lemma_enum_options_merge_all(enum_options_default(), v, depth, limit);
    lemma_entries_readable(v.unknown_fields);
    lemma_merge_into_empty(v.unknown_fields);
    assert(Seq::empty() + v.uninterpreted_option =~= v.uninterpreted_option);
    assert(enum_options_merge_view(enum_options_default(), v) == v);
}

/// Merging what a `EnumOptions` `v` writes into a message `d` merges `v` into `d`: each field `v`
/// holds replaces the one `d` holds, repeated values follow those `d` holds, and unknown fields
/// are added to those of `d`, where `d` holds none of the message fields `v` holds (those are
/// merged into each other), at nesting depth `depth` of a reader with recursion limit `limit`
/// that keeps unknown fields, outside any group, where `v` is read back as written.
pub proof fn lemma_enum_options_merge_written(d: EnumOptionsView, v: EnumOptionsView, depth: nat, limit: nat)
    requires
        parts_encodable(enum_options_parts(v)),
        enum_options_roundtrips(v, depth, limit),
    ensures
        enum_options_merged(d, parts_bytes(enum_options_parts(v)), depth, limit, false, None) == Ok::<EnumOptionsView, ReadError>(enum_options_merge_view(d, v)),
{
    lemma_enum_options_parts_encodable(v);
    lemma_enum_options_parts_bytes(v);
    lemma_enum_options_merge_all(d, v, depth, limit);
}

/// A `EnumOptions` is read back as it is written: merging the bytes of its parts into a default
/// message, at nesting depth `depth` of a reader with recursion limit `limit` that keeps
/// unknown fields, outside any group, gives the message back, where it is read back as written.
pub proof fn lemma_enum_options_roundtrip(v: EnumOptionsView, depth: nat, limit: nat)
    requires
        parts_encodable(enum_options_parts(v)),
        enum_options_roundtrips(v, depth, limit),
    ensures
        enum_options_merged(enum_options_default(), parts_bytes(enum_options_parts(v)), depth, limit, false, None) == Ok::<EnumOptionsView, ReadError>(v),
{
    lemma_enum_options_parts_encodable(v);
    lemma_enum_options_parts_bytes(v);
    lemma_enum_options_read_all(v, depth, limit);
}

/// The `EnumValueOptions` message of `descriptor.proto`.
#[derive(Clone, Debug)]
pub struct EnumValueOptions {
    deprecated: Option<bool>,
    uninterpreted_option: RepeatedField<UninterpretedOption>,
    unknown_fields: UnknownFieldSet,
}

/// The view of a `EnumValueOptions`: its fields, and its unknown fields.
pub struct EnumValueOptionsView {
    /// The `deprecated` field.
    pub deprecated: Option<bool>,
    /// The `uninterpreted_option` field.
    pub uninterpreted_option: Seq<UninterpretedOptionView>,
    /// The unknown fields.
    pub unknown_fields: Seq<(u32, Seq<FieldValue>)>,
}

/// The view of a `EnumValueOptions` value.
pub closed spec fn enum_value_options_view(m: EnumValueOptions) -> EnumValueOptionsView
{
    EnumValueOptionsView {
        deprecated: m.deprecated,
        uninterpreted_option: uninterpreted_option_seq_view(m.uninterpreted_option@),
        unknown_fields: m.unknown_fields@,
    }
}

/// The view of a `EnumValueOptions` with no field set.
pub open spec fn enum_value_options_default() -> EnumValueOptionsView {
    EnumValueOptionsView {
        deprecated: None,
        uninterpreted_option: Seq::empty(),
        unknown_fields: Seq::empty(),
    }
}

impl View for EnumValueOptions {
    type V = EnumValueOptionsView;

    open spec fn view(&self) -> EnumValueOptionsView {
        enum_value_options_view(*self)
    }
}

impl Default for EnumValueOptions {
    /// A message with no field set.
    fn default() -> (r: EnumValueOptions)
        ensures
            r@ == enum_value_options_default(),
    {
        let r = EnumValueOptions {
            deprecated: None,
            uninterpreted_option: Vec::new(),
            unknown_fields: UnknownFieldSet::new(),
        };
        proof {
            assert(uninterpreted_option_seq_view(r.uninterpreted_option@) =~= Seq::empty());
            assert(r@ =~= enum_value_options_default());
        }
        r
    }
}

impl EnumValueOptions {
    /// Gets the `deprecated` field, or its default, `false`.
    pub fn deprecated(&self) -> (r: bool)
        ensures
            r == self@.deprecated.unwrap_or(false),
    {
        match self.deprecated {
            Some(v) => v,
            None => false,
        }
    }

    /// Gets the `deprecated` field if it is set.
    pub fn deprecated_option(&self) -> (r: Option<&bool>)
        ensures
            opt_ref_view(r) == self@.deprecated,
    {
        self.deprecated.as_ref()
    }

    /// Gets the `deprecated` field for changing it, setting it to its type's default first if it
    /// is not set.
    pub fn deprecated_mut(&mut self) -> (r: &mut bool)
        ensures
            (*r)@ == old(self)@.deprecated.unwrap_or(false),
            final(self)@ == (EnumValueOptionsView { deprecated: Some((*final(r))@), ..old(self)@ }),
    {
        self.deprecated.get_or_insert(false)
    }

    /// Returns whether the `deprecated` field is set.
    pub fn has_deprecated(&self) -> (r: bool)
        ensures
            r == self@.deprecated is Some,
    {
        self.deprecated.is_some()
    }

    /// Sets the `deprecated` field.
    pub fn set_deprecated(&mut self, value: bool)
        ensures
            final(self)@ == (EnumValueOptionsView { deprecated: Some(value@), ..old(self)@ }),
    {
        self.deprecated = Some(value);
    }

    /// Takes the `deprecated` field out, leaving it unset.
    pub fn take_deprecated(&mut self) -> (r: Option<bool>)
        ensures
            opt_view(r) == old(self)@.deprecated,
            final(self)@ == (EnumValueOptionsView { deprecated: None, ..old(self)@ }),
    {
        self.deprecated.take()
    }

    /// Clears the `deprecated` field, leaving it unset.
    pub fn clear_deprecated(&mut self)
        ensures
            final(self)@ == (EnumValueOptionsView { deprecated: None, ..old(self)@ }),
    {
        self.deprecated = None;
    }

    /// Gets the values of the `uninterpreted_option` field.
    pub fn uninterpreted_option(&self) -> (r: &RepeatedField<UninterpretedOption>)
        ensures
            uninterpreted_option_seq_view(r@) == self@.uninterpreted_option,
    {
        &self.uninterpreted_option
    }

    /// Gets the values of the `uninterpreted_option` field for changing them.
    pub fn uninterpreted_option_mut(&mut self) -> (r: &mut RepeatedField<UninterpretedOption>)
        ensures
            uninterpreted_option_seq_view((*r)@) == old(self)@.uninterpreted_option,
            final(self)@ == (EnumValueOptionsView { uninterpreted_option: uninterpreted_option_seq_view((*final(r))@), ..old(self)@ }),
    {
        &mut self.uninterpreted_option
    }
}

/// The parts a `EnumValueOptions` is written as: its fields that are set, in field number order, then its
/// unknown fields.
#[verifier::opaque]
pub open spec fn enum_value_options_parts(v: EnumValueOptionsView) -> Seq<(bool, Seq<u8>)>
{
    opt_field_parts::<raw::Bool>(1u32, v.deprecated) + (uninterpreted_option_seq_parts(999u32, v.uninterpreted_option) + (set_parts(v.unknown_fields)))
}

/// What reading the field with tag value `t` from the front of `rest` into `v` gives: the
/// number of bytes read and the message after, or the error.
pub open spec fn enum_value_options_field_read(v: EnumValueOptionsView, t: u32, rest: Seq<u8>, depth: nat, limit: nat, skip: bool, eg: Option<Tag>) -> ReadResult<(int, EnumValueOptionsView)>
{
    if t == 8u32 {
        match <raw::Bool as Value>::decoding(rest) { Ok((m, x)) => Ok((m, EnumValueOptionsView { deprecated: Some(x), ..v })), Err(e) => Err(e) }
    } else if t == 7994u32 {
        match length_delimited_read(rest) { Err(e) => Err(e), Ok((m, b)) => if depth >= limit { Err(ReadError::RecursionLimitExceeded) } else { match uninterpreted_option_merged(uninterpreted_option_default(), b, depth + 1, limit, skip, eg) { Ok(y) => Ok((m, EnumValueOptionsView { uninterpreted_option: v.uninterpreted_option.push(y), ..v })), Err(e) => Err(e) } } }
    } else {
        match unknown_field_read(v.unknown_fields, t, rest, depth, limit, skip, eg) {
            Ok((m, u)) => Ok((m, EnumValueOptionsView { unknown_fields: u, ..v })),
            Err(e) => Err(e),
        }
    }
}

/// What reading all of `s` into `v` as `EnumValueOptions` fields gives: the message after, or the error.
/// `depth` and `limit` are the reader's depth and recursion limit, `skip` whether it skips
/// unknown fields, and `eg` the end tag of the group it is in.
pub open spec fn enum_value_options_merged(v: EnumValueOptionsView, s: Seq<u8>, depth: nat, limit: nat, skip: bool, eg: Option<Tag>) -> ReadResult<EnumValueOptionsView>
    decreases s.len(),
{
    if s.len() == 0 {
        Ok(v)
    } else {
        match varint_read(s) {
            Err(e) => Err(e),
            Ok((n, w)) => if n < 1 || n > s.len() {
                Err(eof())
            } else {
                match enum_value_options_field_read(v, w as u32, s.skip(n), depth, limit, skip, eg) {
                    Err(e) => Err(e),
                    Ok((m, v2)) => if m < 0 || n + m > s.len() {
                        Err(eof())
                    } else {
                        enum_value_options_merged(v2, s.skip(n + m), depth, limit, skip, eg)
                    },
                }
            },
        }
    }
}

/// Reads a `EnumValueOptions` from the reader as a length delimited value, merging it into `this`, one
/// level deeper.
fn merge_enum_value_options_delimited(this: &mut EnumValueOptions, input: &mut CodedReader) -> (r: ReadResult<()>)
    ensures
        match length_delimited_read(old(input).available()) {
            Err(e) => r == Err::<(), ReadError>(e) && same_config(*old(input), *final(input)),
            Ok((m, b)) => if old(input).depth() >= old(input).recursion_limit() {
                r == Err::<(), ReadError>(ReadError::RecursionLimitExceeded) && same_config(*old(input), *final(input))
            } else {
                match enum_value_options_merged(old(this)@, b, old(input).depth() + 1, old(input).recursion_limit(), skips(*old(input)), old(input).end_group_view()) {
                    Ok(y) => r is Ok && final(this)@ == y && final(input).position() == old(input).position() + m
                        && same_state(*old(input), *final(input)),
                    Err(e) => r == Err::<(), ReadError>(e) && same_config(*old(input), *final(input)),
                }
            },
        },
{
    let rem0 = input.remaining();
    let ghost s = input.available();
    let ghost start = *input;
    let length = match input.read_length() {
        Ok(l) => l,
        Err(e) => return Err(e),
    };
    let rem1 = input.remaining();
    let ghost n0 = input.position() - start.position();
    proof {
        lemma_varint_read_len(s);
        assert(input.available() =~= s.skip(n0));
    }
    let previous = match input.push_length(length) {
        Ok(p) => p,
        Err(e) => return Err(e),
    };
    let rem2 = input.remaining();
    let ghost b = s.subrange(n0, n0 + length@);
    proof {
        assert(input.available() =~= b);
        assert(length_delimited_read(s) == Ok::<(int, Seq<u8>), ReadError>((n0 + length@, b)));
    }
    let ghost pushed = *input;
    match input.increment_recursion_count() {
        Ok(()) => {},
        Err(e) => {
            input.pop_length(previous);
            return Err(e);
        },
    }
    let r = this.merge_from(input);
    let rem3 = input.remaining();
    input.decrement_recursion_count();
    input.pop_length(previous);
    r
}

/// The parts an optional `EnumValueOptions` field with field number `num` is written as: nothing where it
/// is not set, else its tag, its length and its parts.
pub open spec fn enum_value_options_opt_parts(num: u32, o: Option<EnumValueOptionsView>) -> Seq<(bool, Seq<u8>)> {
    match o {
        Some(y) => entry_parts(num, enum_value_options_parts(y)),
        None => Seq::empty(),
    }
}

/// Adds the size of an optional `EnumValueOptions` field with field number `num` to the builder.
fn enum_value_options_opt_size(o: &Option<EnumValueOptions>, b: LengthBuilder, num: FieldNumber) -> (r: Option<LengthBuilder>)
    ensures
        size_added(b@ as int, parts_encodable(enum_value_options_opt_parts(num@, opt_view(*o))), parts_bytes(enum_value_options_opt_parts(num@, opt_view(*o))).len() as int, r),
{
    match o {
        Some(y) => {
            let len = y.calculate_size();
            add_entry_size(b, num, len, Ghost(enum_value_options_parts(y@)))
        },
        None => {
            proof {
                assert(parts_encodable(Seq::<(bool, Seq<u8>)>::empty()));
                assert(parts_bytes(Seq::<(bool, Seq<u8>)>::empty()).len() == 0);
            }
            Some(b)
        },
    }
}

/// Writes an optional `EnumValueOptions` field with field number `num`: nothing where it is not set, else
/// its tag, its length and its fields.
fn write_enum_value_options_opt(o: &Option<EnumValueOptions>, output: &mut CodedWriter, num: FieldNumber) -> (r: WriteResult)
    ensures
        (final(output).written(), r) == parts_written(old(output).written(), old(output).capacity(), enum_value_options_opt_parts(num@, opt_view(*o))),
        final(output).capacity() == old(output).capacity(),
        (*final(final(output).target()))@ == (*final(old(output).target()))@,
{
    match o {
        Some(y) => {
            let ghost p = enum_value_options_parts(y@);
            let ghost head = entry_head(num@, p);
            let ghost w0 = output.written();
            let ghost cap = output.capacity();
            proof {
                lemma_parts_written_append(w0, cap, head, p);
                reveal_with_fuel(parts_written, 3);
                assert(head.drop_first().drop_first() =~= Seq::<(bool, Seq<u8>)>::empty());
                lemma_varint_roundtrip(tag_value(num@, WireType::LengthDelimited) as u64);
            }
            match output.write_tag(Tag::new(num, WireType::LengthDelimited)) {
                Ok(()) => {},
                Err(e) => return Err(e),
            }
            let len = match y.calculate_size() {
                Some(len) => len,
                None => return Err(WriteError::ValueTooLarge),
            };
            proof {
                lemma_varint_roundtrip(len@ as u64);
            }
            match output.write_length(len) {
                Ok(()) => {},
                Err(e) => return Err(e),
            }
            y.write_to(output)
        },
        None => Ok(()),
    }
}

impl EnumValueOptions {
    /// Gets the unknown fields of the message.
    pub fn unknown_fields(&self) -> (r: &UnknownFieldSet)
        ensures
            r@ == self@.unknown_fields,
    {
        &self.unknown_fields
    }

    /// Gets the unknown fields of the message for changing them.
    pub fn unknown_fields_mut(&mut self) -> (r: &mut UnknownFieldSet)
        ensures
            (*r)@ == old(self)@.unknown_fields,
            final(self)@ == (EnumValueOptionsView { unknown_fields: (*final(r))@, ..old(self)@ }),
    {
        &mut self.unknown_fields
    }

    /// Returns whether the message is initialized: whether all its required fields are set.
    pub fn is_initialized(&self) -> (r: bool)
        ensures
            r,
    {
        if !crate::is_initialized(&self.uninterpreted_option) {
            return false;
        }
        true
    }

    /// Calculates the size of the message as it is written: `None` if a part cannot be
    /// written or the size does not fit in a length.
    #[verifier::spinoff_prover]
    pub fn calculate_size(&self) -> (r: Option<Length>)
        ensures
            opt_length(r) == parts_size(enum_value_options_parts(self@)),
    {
        let ghost v = self@;
        let ghost all = enum_value_options_parts(v);
        let b0 = LengthBuilder::new();
        let ghost d0 = Seq::<(bool, Seq<u8>)>::empty();
        proof {
            reveal(enum_value_options_parts);
            assert(all =~= d0 + all);
        }
        let ghost p1 = opt_field_parts::<raw::Bool>(1u32, v.deprecated);
        let ghost rest1 = uninterpreted_option_seq_parts(999u32, v.uninterpreted_option) + (set_parts(v.unknown_fields));
        proof {
            assert(self@.deprecated == opt_inner_view::<raw::Bool>(self.deprecated));
            assert(all == d0 + (p1 + rest1));
            assert(d0 + (p1 + rest1) =~= d0 + p1 + rest1);
        }
        let r1 = add_opt_field::<raw::Bool>(b0, FieldNumber::new_unchecked(1), &self.deprecated);
        proof {
            lemma_size_chain(0, d0, p1, Some(b0), r1);
            if r1 is None {
                lemma_size_chain(0, d0 + p1, rest1, r1, r1);
            }
        }
        let b1 = match r1 {
            Some(b) => b,
            None => return None,
        };
        let ghost d1 = d0 + p1;
        let ghost p2 = uninterpreted_option_seq_parts(999u32, v.uninterpreted_option);
        let ghost rest2 = set_parts(v.unknown_fields);
        proof {
            assert(all == d1 + (p2 + rest2));
            assert(d1 + (p2 + rest2) =~= d1 + p2 + rest2);
        }
        let r2 = uninterpreted_option_values_size(&self.uninterpreted_option, b1, FieldNumber::new_unchecked(999));
        proof {
            lemma_size_chain(0, d1, p2, Some(b1), r2);
            if r2 is None {
                lemma_size_chain(0, d1 + p2, rest2, r2, r2);
            }
        }
        let b2 = match r2 {
            Some(b) => b,
            None => return None,
        };
        let ghost d2 = d1 + p2;
        let ghost p3 = set_parts(v.unknown_fields);
        let ghost rest3 = Seq::<(bool, Seq<u8>)>::empty();
        proof {
            assert(all == d2 + p3);
            assert(p3 + rest3 =~= p3);
            assert(d2 + (p3 + rest3) =~= d2 + p3 + rest3);
        }
        let r3 = self.unknown_fields.calculate_size(b2);
        proof {
            lemma_size_chain(0, d2, p3, Some(b2), r3);
            if r3 is None {
                lemma_size_chain(0, d2 + p3, rest3, r3, r3);
            }
        }
        let b3 = match r3 {
            Some(b) => b,
            None => return None,
        };
        let ghost d3 = d2 + p3;
        Some(b3.build())
    }

    /// Writes the message to the writer: its fields that are set, in field number order, then
    /// its unknown fields.
    #[verifier::spinoff_prover]
    pub fn write_to(&self, output: &mut CodedWriter) -> (r: WriteResult)
        ensures
            (final(output).written(), r) == parts_written(old(output).written(), old(output).capacity(), enum_value_options_parts(self@)),
            final(output).capacity() == old(output).capacity(),
            (*final(final(output).target()))@ == (*final(old(output).target()))@,
    {
        let ghost v = self@;
        let ghost all = enum_value_options_parts(v);
        let ghost start = output.written();
        let ghost cap = output.capacity();
        let ghost d0 = Seq::<(bool, Seq<u8>)>::empty();
        proof {
            reveal(enum_value_options_parts);
            assert(all =~= d0 + all);
        }
        let ghost p1 = opt_field_parts::<raw::Bool>(1u32, v.deprecated);
        let ghost rest1 = uninterpreted_option_seq_parts(999u32, v.uninterpreted_option) + (set_parts(v.unknown_fields));
        proof {
            assert(self@.deprecated == opt_inner_view::<raw::Bool>(self.deprecated));
            assert(all == d0 + (p1 + rest1));
            assert(d0 + (p1 + rest1) =~= d0 + p1 + rest1);
            lemma_parts_written_append(start, cap, d0, p1);
            lemma_parts_written_append(start, cap, d0 + p1, rest1);
        }
        match write_opt_field::<raw::Bool>(output, FieldNumber::new_unchecked(1), &self.deprecated) {
            Ok(()) => {},
            Err(e) => return Err(e),
        }
        let ghost d1 = d0 + p1;
        let ghost p2 = uninterpreted_option_seq_parts(999u32, v.uninterpreted_option);
        let ghost rest2 = set_parts(v.unknown_fields);
        proof {
            assert(all == d1 + (p2 + rest2));
            assert(d1 + (p2 + rest2) =~= d1 + p2 + rest2);
            lemma_parts_written_append(start, cap, d1, p2);
            lemma_parts_written_append(start, cap, d1 + p2, rest2);
        }
        match write_uninterpreted_option_values(&self.uninterpreted_option, output, FieldNumber::new_unchecked(999)) {
            Ok(()) => {},
            Err(e) => return Err(e),
        }
        let ghost d2 = d1 + p2;
        let ghost p3 = set_parts(v.unknown_fields);
        let ghost rest3 = Seq::<(bool, Seq<u8>)>::empty();
        proof {
            assert(all == d2 + p3);
            assert(p3 + rest3 =~= p3);
            assert(d2 + (p3 + rest3) =~= d2 + p3 + rest3);
            lemma_parts_written_append(start, cap, d2, p3);
            lemma_parts_written_append(start, cap, d2 + p3, rest3);
        }
        match self.unknown_fields.write_to(output) {
            Ok(()) => {},
            Err(e) => return Err(e),
        }
        let ghost d3 = d2 + p3;
        proof {
            assert(all =~= d3 + Seq::<(bool, Seq<u8>)>::empty());
            assert(all == d3);
            lemma_ok_unit(parts_written(start, cap, all).1);
        }
        Ok(())
    }

    /// Reads the value of the field whose tag value `t` was just read into the message.
    #[verifier::spinoff_prover]
    fn merge_field(&mut self, t: u32, input: &mut CodedReader) -> (r: ReadResult<()>)
        ensures
            match enum_value_options_field_read(old(self)@, t, old(input).available(), old(input).depth(), old(input).recursion_limit(), skips(*old(input)), old(input).end_group_view()) {
                Ok((m, v2)) => r is Ok && final(self)@ == v2 && m >= 0 && final(input).position()
                    == old(input).position() + m && same_state(*old(input), *final(input)),
                Err(e) => r == Err::<(), ReadError>(e) && same_config(*old(input), *final(input)),
            },
    {
        let rem0 = input.remaining();
        let ghost rest = input.available();
        if t == 8u32 {
            proof {
                <raw::Bool as Value>::lemma_decoding_len(rest);
            }
            input.set_last_tag(Some(Tag::new(FieldNumber::new_unchecked(1), WireType::Varint)));
            match <raw::Bool as Value>::merge_from(self.deprecated.get_or_insert(false), input) {
                Ok(()) => {},
                Err(e) => return Err(e),
            }
        } else if t == 7994u32 {
            proof {
                lemma_length_delimited_read_len(rest);
            }
            input.set_last_tag(Some(Tag::new(FieldNumber::new_unchecked(999), WireType::LengthDelimited)));
            let mut y = UninterpretedOption::default();
            match merge_uninterpreted_option_delimited(&mut y, input) {
                Ok(()) => {},
                Err(e) => return Err(e),
            }
            let ghost old_values = self.uninterpreted_option@;
            self.uninterpreted_option.push(y);
            proof {
                assert(self.uninterpreted_option@.subrange(0, self.uninterpreted_option@.len() - 1) =~= old_values);
            }
        } else {
            let tag = match Tag::try_from(t) {
                Ok(tag) => tag,
                Err(_) => return Err(ReadError::InvalidTag(t)),
            };
            input.set_last_tag(Some(tag));
            match self.unknown_fields.try_add_field_from(input) {
                Ok(TryRead::Consumed) => {},
                Ok(TryRead::Yielded) => match input.skip() {
                    Ok(()) => {},
                    Err(e) => return Err(e),
                },
                Err(e) => return Err(e),
            }
        }
        let rem1 = input.remaining();
        Ok(())
    }

    /// Merges the message with fields read from the reader, up to its limit. Scalar fields
    /// read replace those set, message fields are merged, repeated fields are added to,
    /// and unknown fields are stored or skipped as the reader says. On an error the message
    /// may hold some of the fields read before it.
    #[verifier::spinoff_prover]
    #[verifier::rlimit(50)]
    pub fn merge_from(&mut self, input: &mut CodedReader) -> (r: ReadResult<()>)
        ensures
            merge_outcome(enum_value_options_merged(old(self)@, old(input).available(), old(input).depth(), old(input).recursion_limit(), skips(*old(input)), old(input).end_group_view()), final(self)@, *old(input), *final(input), r),
    {
        let rem0 = input.remaining();
        let ghost start = *input;
        let ghost total = enum_value_options_merged(self@, input.available(), input.depth(), input.recursion_limit(), skips(*input), input.end_group_view());
        loop
            invariant
                start == *old(input),
                same_state(start, *input),
                0 <= start.position() <= input.position(),
                input.limit_end() <= input.input().len(),
                total == enum_value_options_merged(old(self)@, start.available(), start.depth(), start.recursion_limit(), skips(start), start.end_group_view()),
                total == enum_value_options_merged(self@, input.available(), start.depth(), start.recursion_limit(), skips(start), start.end_group_view()),
            decreases input.available().len(),
        {
            let ghost s = input.available();
            let ghost before = *input;
            let ghost v = self@;
            let t = match input.read_field() {
                Ok(Some(t)) => t,
                Ok(None) => return Ok(()),
                Err(e) => return Err(e),
            };
            let rem1 = input.remaining();
            let ghost n = input.position() - before.position();
            proof {
                lemma_varint_read_len(s);
                assert(input.available() =~= s.skip(n));
            }
            let ghost mid = *input;
            match self.merge_field(t, input) {
                Ok(()) => {},
                Err(e) => return Err(e),
            }
            let rem2 = input.remaining();
            proof {
                let m = input.position() - mid.position();
                assert(input.available() =~= s.skip(n + m));
            }
        }
    }
}

impl crate::Message for EnumValueOptions {
    open spec fn merged(v: EnumValueOptionsView, s: Seq<u8>, depth: nat, limit: nat, skip: bool, eg: Option<Tag>) -> ReadResult<EnumValueOptionsView> {
        enum_value_options_merged(v, s, depth, limit, skip, eg)
    }

    open spec fn parts(v: EnumValueOptionsView) -> Seq<(bool, Seq<u8>)> {
        enum_value_options_parts(v)
    }

    open spec fn initialized(v: EnumValueOptionsView) -> bool {
        true
    }

    open spec fn unknown_fields_of(v: EnumValueOptionsView) -> Seq<(u32, Seq<FieldValue>)> {
        v.unknown_fields
    }

    open spec fn with_unknown_fields(v: EnumValueOptionsView, u: Seq<(u32, Seq<FieldValue>)>) -> EnumValueOptionsView {
        EnumValueOptionsView { unknown_fields: u, ..v }
    }

    fn merge_from(&mut self, input: &mut CodedReader) -> (r: ReadResult<()>) {
        EnumValueOptions::merge_from(self, input)
    }

    fn calculate_size(&self) -> (r: Option<Length>) {
        EnumValueOptions::calculate_size(self)
    }

    fn write_to(&self, output: &mut CodedWriter) -> (r: WriteResult) {
        EnumValueOptions::write_to(self, output)
    }

    fn is_initialized(&self) -> (r: bool) {
        EnumValueOptions::is_initialized(self)
    }

    fn unknown_fields(&self) -> (r: &UnknownFieldSet) {
        EnumValueOptions::unknown_fields(self)
    }

    fn unknown_fields_mut(&mut self) -> (r: &mut UnknownFieldSet) {
        EnumValueOptions::unknown_fields_mut(self)
    }
}

impl DebugMessage for EnumValueOptions {
    open spec fn spec_full_name() -> Seq<char> {
        "google.protobuf.EnumValueOptions"@
    }

    open spec fn spec_name() -> Seq<char> {
        "EnumValueOptions"@
    }

    fn full_name() -> (r: &'static str) {
        "google.protobuf.EnumValueOptions"
    }

    fn name() -> (r: &'static str) {
        "EnumValueOptions"
    }
}

/// Whether `t` is the tag of a field a `EnumValueOptions` reads.
pub open spec fn enum_value_options_known_tag(t: u32) -> bool {
    t == 8u32 || t == 7994u32
}

/// Whether a `EnumValueOptions` is read back as it is written, at nesting depth `depth` of a reader with
/// recursion limit `limit`: its messages are read back as written one level deeper, within
/// the limit; and its unknown fields are read back as written, none with the tag of one of
/// its fields.
pub open spec fn enum_value_options_roundtrips(v: EnumValueOptionsView, depth: nat, limit: nat) -> bool
{
    &&& (v.uninterpreted_option.len() > 0 ==> depth < limit)
    &&& forall|i: int| 0 <= i < v.uninterpreted_option.len() ==> uninterpreted_option_roundtrips(#[trigger] v.uninterpreted_option[i], depth + 1, limit)
    &&& set_readable(v.unknown_fields)
    &&& forall|k: int| 0 <= k < set_pairs(v.unknown_fields).len() ==> !enum_value_options_known_tag(tag_value(
        #[trigger] set_pairs(v.unknown_fields)[k].0,
        field_value_wire_type(set_pairs(v.unknown_fields)[k].1),
    ))
}

/// Reading a `EnumValueOptions` field whose tag is read from the front of `s` and whose value is read after
/// it continues with the rest of `s`.
proof fn lemma_enum_value_options_step(v: EnumValueOptionsView, s: Seq<u8>, k: int, t: u32, m: int, v2: EnumValueOptionsView, depth: nat, limit: nat)
    requires
        varint_read(s) == Ok::<(int, u64), ReadError>((k, t as u64)),
        1 <= k <= s.len(),
        enum_value_options_field_read(v, t, s.skip(k), depth, limit, false, None) == Ok::<(int, EnumValueOptionsView), ReadError>((m, v2)),
        0 <= m,
        k + m <= s.len(),
    ensures
        enum_value_options_merged(v, s, depth, limit, false, None) == enum_value_options_merged(v2, s.skip(k + m), depth, limit, false, None),
{
    assert((t as u64) as u32 == t);
}

/// Reading the entries of `UninterpretedOption` values written as field `uninterpreted_option` of a `EnumValueOptions` adds the values.
#[verifier::spinoff_prover]
#[verifier::rlimit(60)]
proof fn lemma_enum_value_options_read_uninterpreted_option(v: EnumValueOptionsView, ys: Seq<UninterpretedOptionView>, rest: Seq<u8>, depth: nat, limit: nat)
    requires
        parts_encodable(uninterpreted_option_seq_parts(999u32, ys)),
        ys.len() > 0 ==> depth < limit,
        forall|i: int| 0 <= i < ys.len() ==> uninterpreted_option_roundtrips(#[trigger] ys[i], depth + 1, limit),
    ensures
        enum_value_options_merged(v, parts_bytes(uninterpreted_option_seq_parts(999u32, ys)) + rest, depth, limit, false, None) == enum_value_options_merged(
            EnumValueOptionsView { uninterpreted_option: v.uninterpreted_option + ys, ..v },
            rest,
            depth, limit, false, None,
        ),
    decreases ys.len(),
{
    if ys.len() == 0 {
        assert(parts_bytes(uninterpreted_option_seq_parts(999u32, ys)) + rest =~= rest);
        assert(v.uninterpreted_option + ys =~= v.uninterpreted_option);
    } else {
        let y = ys[0];
        let tail = ys.drop_first();
        assert forall|i: int| 0 <= i < tail.len() implies uninterpreted_option_roundtrips(#[trigger] tail[i], depth + 1, limit) by {
            assert(tail[i] == ys[i + 1]);
        }
        lemma_uninterpreted_option_seq_parts_front(999u32, ys);
        let ep = entry_parts(999u32, uninterpreted_option_parts(y));
        lemma_parts_encodable_two(ep, uninterpreted_option_seq_parts(999u32, tail));
        lemma_parts_bytes_append(ep, uninterpreted_option_seq_parts(999u32, tail));
        assert(ep[1].0);
        let after = parts_bytes(uninterpreted_option_seq_parts(999u32, tail)) + rest;
        let s = parts_bytes(uninterpreted_option_seq_parts(999u32, ys)) + rest;
        assert(s =~= parts_bytes(ep) + after);
        lemma_entry_bytes_read(999u32, uninterpreted_option_parts(y), after);
        lemma_tag_value(999u32, WireType::LengthDelimited);
        lemma_uninterpreted_option_roundtrip(y, depth + 1, limit);
        let hl = parts_bytes(ep).len() as int;
        let k = varint_len(7994u64) as int;
        let v2 = EnumValueOptionsView { uninterpreted_option: v.uninterpreted_option.push(y), ..v };
        lemma_enum_value_options_step(v, s, k, 7994u32, hl - k, v2, depth, limit);
        lemma_enum_value_options_read_uninterpreted_option(v2, tail, rest, depth, limit);
        assert(v.uninterpreted_option.push(y) + tail =~= v.uninterpreted_option + ys);
    }
}

/// Reading the field `deprecated` of a `EnumValueOptions` written from `o` sets it to `o`, whatever it held; nothing
/// is written, and nothing changes, for `None`.
proof fn lemma_enum_value_options_read_deprecated(d: EnumValueOptionsView, o: Option<bool>, rest: Seq<u8>, depth: nat, limit: nat)
    requires
        parts_encodable(opt_field_parts::<raw::Bool>(1u32, o)),
    ensures
        enum_value_options_merged(d, parts_bytes(opt_field_parts::<raw::Bool>(1u32, o)) + rest, depth, limit, false, None) == enum_value_options_merged(if o is Some { EnumValueOptionsView { deprecated: o, ..d } } else { d }, rest, depth, limit, false, None),
{
    match o {
        None => {
            assert(parts_bytes(opt_field_parts::<raw::Bool>(1u32, o)) + rest =~= rest);
        },
        Some(x) => {
            let p = field_parts::<raw::Bool>(1u32, x);
            assert(p[1].0);
            let s = parts_bytes(p) + rest;
            lemma_field_bytes_read::<raw::Bool>(1u32, x, rest);
            lemma_tag_value(1u32, WireType::Varint);
            let hl = parts_bytes(p).len() as int;
            let k = varint_len(8u64) as int;
            let v2 = EnumValueOptionsView { deprecated: Some(x), ..d };
            lemma_enum_value_options_step(d, s, k, 8u32, hl - k, v2, depth, limit);
        },
    }
}

/// Reading unknown field values written one after the other into a `EnumValueOptions`, none with the tag
/// of one of its fields, adds them to its unknown fields.
proof fn lemma_enum_value_options_read_unknown(v: EnumValueOptionsView, ps: Seq<(u32, FieldValue)>, rest: Seq<u8>, depth: nat, limit: nat)
    requires
        forall|k: int| 0 <= k < ps.len() ==> value_readable(#[trigger] ps[k].0, ps[k].1) && !enum_value_options_known_tag(
            tag_value(ps[k].0, field_value_wire_type(ps[k].1)),
        ),
    ensures
        enum_value_options_merged(v, parts_bytes(pairs_parts(ps)) + rest, depth, limit, false, None) == enum_value_options_merged(
            EnumValueOptionsView { unknown_fields: push_pairs(v.unknown_fields, ps), ..v },
            rest,
            depth, limit, false, None,
        ),
    decreases ps.len(),
{
    if ps.len() == 0 {
        assert(parts_bytes(pairs_parts(ps)) + rest =~= rest);
    } else {
        let n = ps[0].0;
        let fv = ps[0].1;
        let tail = ps.drop_first();
        assert forall|k: int| 0 <= k < tail.len() implies value_readable(#[trigger] tail[k].0, tail[k].1) && !enum_value_options_known_tag(
            tag_value(tail[k].0, field_value_wire_type(tail[k].1)),
        ) by {
            assert(tail[k] == ps[k + 1]);
        }
        assert(value_readable(ps[0].0, ps[0].1));
        lemma_parts_bytes_append(field_value_parts(n, fv), pairs_parts(tail));
        let after = parts_bytes(pairs_parts(tail)) + rest;
        let s = parts_bytes(pairs_parts(ps)) + rest;
        assert(s =~= parts_bytes(field_value_parts(n, fv)) + after);
        lemma_read_value_bytes(n, fv, after);
        let t = tag_value(n, field_value_wire_type(fv));
        let hl = parts_bytes(field_value_parts(n, fv)).len() as int;
        let k = varint_len(t as u64) as int;
        let v2 = EnumValueOptionsView { unknown_fields: view_push(v.unknown_fields, n, fv), ..v };
        lemma_enum_value_options_step(v, s, k, t, hl - k, v2, depth, limit);
        lemma_enum_value_options_read_unknown(v2, tail, rest, depth, limit);
    }
}

/// The writability of the parts of a `EnumValueOptions` is that of each field's parts.
proof fn lemma_enum_value_options_parts_encodable(v: EnumValueOptionsView)
    ensures
        parts_encodable(enum_value_options_parts(v)) == (parts_encodable(opt_field_parts::<raw::Bool>(1u32, v.deprecated)) && parts_encodable(uninterpreted_option_seq_parts(999u32, v.uninterpreted_option)) && parts_encodable(set_parts(v.unknown_fields))),
{
    reveal(enum_value_options_parts);
    let p0 = opt_field_parts::<raw::Bool>(1u32, v.deprecated);
    let p1 = uninterpreted_option_seq_parts(999u32, v.uninterpreted_option);
    let p2 = set_parts(v.unknown_fields);
    let q2 = p2;
    let q1 = p1 + q2;
    lemma_parts_encodable_two(p1, q2);
    let q0 = p0 + q1;
    lemma_parts_encodable_two(p0, q1);
    assert(enum_value_options_parts(v) == q0);
}

/// The bytes of the parts of a `EnumValueOptions` are those of each field's parts, one after the other.
proof fn lemma_enum_value_options_parts_bytes(v: EnumValueOptionsView)
    ensures
        parts_bytes(enum_value_options_parts(v)) == parts_bytes(opt_field_parts::<raw::Bool>(1u32, v.deprecated)) + (parts_bytes(uninterpreted_option_seq_parts(999u32, v.uninterpreted_option)) + parts_bytes(set_parts(v.unknown_fields))),
{
    reveal(enum_value_options_parts);
    let p0 = opt_field_parts::<raw::Bool>(1u32, v.deprecated);
    let p1 = uninterpreted_option_seq_parts(999u32, v.uninterpreted_option);
    let p2 = set_parts(v.unknown_fields);
    let q2 = p2;
    let q1 = p1 + q2;
    lemma_parts_bytes_append(p1, q2);
    let q0 = p0 + q1;
    lemma_parts_bytes_append(p0, q1);
    assert(enum_value_options_parts(v) == q0);
}

/// The message a `EnumValueOptions` `d` becomes when `v` is merged into it: each field `v` holds once
/// replaces the one `d` holds, the values of each repeated field of `v` follow those of `d`,
/// and the unknown fields of `v` are added to those of `d`, field number by field number.
pub open spec fn enum_value_options_merge_view(d: EnumValueOptionsView, v: EnumValueOptionsView) -> EnumValueOptionsView {
    EnumValueOptionsView { deprecated: newer_or(v.deprecated, d.deprecated), uninterpreted_option: d.uninterpreted_option + v.uninterpreted_option, unknown_fields: view_merge(d.unknown_fields, v.unknown_fields) }
}

/// Reading the bytes of the parts of a `EnumValueOptions` `v`, field by field, into `d` merges `v` into `d`.
#[verifier::spinoff_prover]
#[verifier::rlimit(60)]
proof fn lemma_enum_value_options_merge_all(d: EnumValueOptionsView, v: EnumValueOptionsView, depth: nat, limit: nat)
    requires
        parts_encodable(opt_field_parts::<raw::Bool>(1u32, v.deprecated)),
        parts_encodable(uninterpreted_option_seq_parts(999u32, v.uninterpreted_option)),
        enum_value_options_roundtrips(v, depth, limit),
        parts_bytes(enum_value_options_parts(v)) == parts_bytes(opt_field_parts::<raw::Bool>(1u32, v.deprecated)) + (parts_bytes(uninterpreted_option_seq_parts(999u32, v.uninterpreted_option)) + parts_bytes(set_parts(v.unknown_fields))),
    ensures
        enum_value_options_merged(d, parts_bytes(enum_value_options_parts(v)), depth, limit, false, None) == Ok::<EnumValueOptionsView, ReadError>(enum_value_options_merge_view(d, v)),
{
    let p0 = opt_field_parts::<raw::Bool>(1u32, v.deprecated);
    let p1 = uninterpreted_option_seq_parts(999u32, v.uninterpreted_option);
    let p2 = set_parts(v.unknown_fields);
    let b0 = parts_bytes(p0);
    let b1 = parts_bytes(p1);
    let b2 = parts_bytes(p2);
    let r2 = b2;
    let r1 = b1 + r2;
    let r0 = b0 + r1;
    let d0 = d;
    let d1 = EnumValueOptionsView { deprecated: newer_or(v.deprecated, d.deprecated), ..d0 };
    assert(enum_value_options_merged(d0, r0, depth, limit, false, None) == enum_value_options_merged(d1, r1, depth, limit, false, None)) by {
        lemma_enum_value_options_read_deprecated(d0, v.deprecated, r1, depth, limit);
        assert((if v.deprecated is Some { EnumValueOptionsView { deprecated: v.deprecated, ..d0 } } else { d0 }) == d1);
    }
    let d2 = EnumValueOptionsView { uninterpreted_option: d.uninterpreted_option + v.uninterpreted_option, ..d1 };
    assert(enum_value_options_merged(d1, r1, depth, limit, false, None) == enum_value_options_merged(d2, r2, depth, limit, false, None)) by {
        lemma_enum_value_options_read_uninterpreted_option(d1, v.uninterpreted_option, r2, depth, limit);
        assert(EnumValueOptionsView { uninterpreted_option: d1.uninterpreted_option + v.uninterpreted_option, ..d1 } == d2);
    }
    let ps = set_pairs(v.unknown_fields);
    assert(enum_value_options_merged(d2, r2, depth, limit, false, None) == Ok::<EnumValueOptionsView, ReadError>(enum_value_options_merge_view(d, v))) by {
        lemma_set_pairs(v.unknown_fields, d.unknown_fields);
        lemma_entries_readable(v.unknown_fields);
        assert forall|k: int| 0 <= k < ps.len() implies value_readable(#[trigger] ps[k].0, ps[k].1) && !enum_value_options_known_tag(
            tag_value(ps[k].0, field_value_wire_type(ps[k].1)),
        ) by {
            assert(!enum_value_options_known_tag(tag_value(set_pairs(v.unknown_fields)[k].0, field_value_wire_type(set_pairs(v.unknown_fields)[k].1))));
        }
        lemma_enum_value_options_read_unknown(d2, ps, Seq::empty(), depth, limit);
        assert(b2 + Seq::<u8>::empty() =~= b2);
        let dl = EnumValueOptionsView { unknown_fields: push_pairs(d2.unknown_fields, ps), ..d2 };
        assert(dl == enum_value_options_merge_view(d, v));
    }
}

/// Reading the bytes of the parts of a `EnumValueOptions`, field by field, gives the message back.
proof fn lemma_enum_value_options_read_all(v: EnumValueOptionsView, depth: nat, limit: nat)
    requires
        parts_encodable(opt_field_parts::<raw::Bool>(1u32, v.deprecated)),
        parts_encodable(uninterpreted_option_seq_parts(999u32, v.uninterpreted_option)),
        enum_value_options_roundtrips(v, depth, limit),
        parts_bytes(enum_value_options_parts(v)) == parts_bytes(opt_field_parts::<raw::Bool>(1u32, v.deprecated)) + (parts_bytes(uninterpreted_option_seq_parts(999u32, v.uninterpreted_option)) + parts_bytes(set_parts(v.unknown_fields))),
    ensures
        enum_value_options_merged(enum_value_options_default(), parts_bytes(enum_value_options_parts(v)), depth, limit, false, None) == Ok::<EnumValueOptionsView, ReadError>(v),
{
    lemma_enum_value_options_merge_all(enum_value_options_default(), v, depth, limit);
    lemma_entries_readable(v.unknown_fields);
    lemma_merge_into_empty(v.unknown_fields);
    assert(Seq::empty() + v.uninterpreted_option =~= v.uninterpreted_option);
    assert(enum_value_options_merge_view(enum_value_options_default(), v) == v);
}

/// Merging what a `EnumValueOptions` `v` writes into a message `d` merges `v` into `d`: each field `v`
/// holds replaces the one `d` holds, repeated values follow those `d` holds, and unknown fields
/// are added to those of `d`, where `d` holds none of the message fields `v` holds (those are
/// merged into each other), at nesting depth `depth` of a reader with recursion limit `limit`
/// that keeps unknown fields, outside any group, where `v` is read back as written.
pub proof fn lemma_enum_value_options_merge_written(d: EnumValueOptionsView, v: EnumValueOptionsView, depth: nat, limit: nat)
    requires
        parts_encodable(enum_value_options_parts(v)),
        enum_value_options_roundtrips(v, depth, limit),
    ensures
        enum_value_options_merged(d, parts_bytes(enum_value_options_parts(v)), depth, limit, false, None) == Ok::<EnumValueOptionsView, ReadError>(enum_value_options_merge_view(d, v)),
{
    lemma_enum_value_options_parts_encodable(v);
    lemma_enum_value_options_parts_bytes(v);
    lemma_enum_value_options_merge_all(d, v, depth, limit);
}

/// A `EnumValueOptions` is read back as it is written: merging the bytes of its parts into a default
/// message, at nesting depth `depth` of a reader with recursion limit `limit` that keeps
/// unknown fields, outside any group, gives the message back, where it is read back as written.
pub proof fn lemma_enum_value_options_roundtrip(v: EnumValueOptionsView, depth: nat, limit: nat)
    requires
        parts_encodable(enum_value_options_parts(v)),
        enum_value_options_roundtrips(v, depth, limit),
    ensures
        enum_value_options_merged(enum_value_options_default(), parts_bytes(enum_value_options_parts(v)), depth, limit, false, None) == Ok::<EnumValueOptionsView, ReadError>(v),
{
    lemma_enum_value_options_parts_encodable(v);
    lemma_enum_value_options_parts_bytes(v);
    lemma_enum_value_options_read_all(v, depth, limit);
}

/// The `ServiceOptions` message of `descriptor.proto`.
#[derive(Clone, Debug)]
pub struct ServiceOptions {
    deprecated: Option<bool>,
    uninterpreted_option: RepeatedField<UninterpretedOption>,
    unknown_fields: UnknownFieldSet,
}

/// The view of a `ServiceOptions`: its fields, and its unknown fields.
pub struct ServiceOptionsView {
    /// The `deprecated` field.
    pub deprecated: Option<bool>,
    /// The `uninterpreted_option` field.
    pub uninterpreted_option: Seq<UninterpretedOptionView>,
    /// The unknown fields.
    pub unknown_fields: Seq<(u32, Seq<FieldValue>)>,
}

/// The view of a `ServiceOptions` value.
pub closed spec fn service_options_view(m: ServiceOptions) -> ServiceOptionsView
{
    ServiceOptionsView {
        deprecated: m.deprecated,
        uninterpreted_option: uninterpreted_option_seq_view(m.uninterpreted_option@),
        unknown_fields: m.unknown_fields@,
    }
}

/// The view of a `ServiceOptions` with no field set.
pub open spec fn service_options_default() -> ServiceOptionsView {
    ServiceOptionsView {
        deprecated: None,
        uninterpreted_option: Seq::empty(),
        unknown_fields: Seq::empty(),
    }
}

impl View for ServiceOptions {
    type V = ServiceOptionsView;

    open spec fn view(&self) -> ServiceOptionsView {
        service_options_view(*self)
    }
}

impl Default for ServiceOptions {
    /// A message with no field set.
    fn default() -> (r: ServiceOptions)
        ensures
            r@ == service_options_default(),
    {
        let r = ServiceOptions {
            deprecated: None,
            uninterpreted_option: Vec::new(),
            unknown_fields: UnknownFieldSet::new(),
        };
        proof {
            assert(uninterpreted_option_seq_view(r.uninterpreted_option@) =~= Seq::empty());
            assert(r@ =~= service_options_default());
        }
        r
    }
}

impl ServiceOptions {
    /// Gets the `deprecated` field, or its default, `false`.
    pub fn deprecated(&self) -> (r: bool)
        ensures
            r == self@.deprecated.unwrap_or(false),
    {
        match self.deprecated {
            Some(v) => v,
            None => false,
        }
    }

    /// Gets the `deprecated` field if it is set.
    pub fn deprecated_option(&self) -> (r: Option<&bool>)
        ensures
            opt_ref_view(r) == self@.deprecated,
    {
        self.deprecated.as_ref()
    }

    /// Gets the `deprecated` field for changing it, setting it to its type's default first if it
    /// is not set.
    pub fn deprecated_mut(&mut self) -> (r: &mut bool)
        ensures
            (*r)@ == old(self)@.deprecated.unwrap_or(false),
            final(self)@ == (ServiceOptionsView { deprecated: Some((*final(r))@), ..old(self)@ }),
    {
        self.deprecated.get_or_insert(false)
    }

    /// Returns whether the `deprecated` field is set.
    pub fn has_deprecated(&self) -> (r: bool)
        ensures
            r == self@.deprecated is Some,
    {
        self.deprecated.is_some()
    }

    /// Sets the `deprecated` field.
    pub fn set_deprecated(&mut self, value: bool)
        ensures
            final(self)@ == (ServiceOptionsView { deprecated: Some(value@), ..old(self)@ }),
    {
        self.deprecated = Some(value);
    }

    /// Takes the `deprecated` field out, leaving it unset.
    pub fn take_deprecated(&mut self) -> (r: Option<bool>)
        ensures
            opt_view(r) == old(self)@.deprecated,
            final(self)@ == (ServiceOptionsView { deprecated: None, ..old(self)@ }),
    {
        self.deprecated.take()
    }

    /// Clears the `deprecated` field, leaving it unset.
    pub fn clear_deprecated(&mut self)
        ensures
            final(self)@ == (ServiceOptionsView { deprecated: None, ..old(self)@ }),
    {
        self.deprecated = None;
    }

    /// Gets the values of the `uninterpreted_option` field.
    pub fn uninterpreted_option(&self) -> (r: &RepeatedField<UninterpretedOption>)
        ensures
            uninterpreted_option_seq_view(r@) == self@.uninterpreted_option,
    {
        &self.uninterpreted_option
    }

    /// Gets the values of the `uninterpreted_option` field for changing them.
    pub fn uninterpreted_option_mut(&mut self) -> (r: &mut RepeatedField<UninterpretedOption>)
        ensures
            uninterpreted_option_seq_view((*r)@) == old(self)@.uninterpreted_option,
            final(self)@ == (ServiceOptionsView { uninterpreted_option: uninterpreted_option_seq_view((*final(r))@), ..old(self)@ }),
    {
        &mut self.uninterpreted_option
    }
}

/// The parts a `ServiceOptions` is written as: its fields that are set, in field number order, then its
/// unknown fields.
#[verifier::opaque]
pub open spec fn service_options_parts(v: ServiceOptionsView) -> Seq<(bool, Seq<u8>)>
{
    opt_field_parts::<raw::Bool>(33u32, v.deprecated) + (uninterpreted_option_seq_parts(999u32, v.uninterpreted_option) + (set_parts(v.unknown_fields)))
}

/// What reading the field with tag value `t` from the front of `rest` into `v` gives: the
/// number of bytes read and the message after, or the error.
pub open spec fn service_options_field_read(v: ServiceOptionsView, t: u32, rest: Seq<u8>, depth: nat, limit: nat, skip: bool, eg: Option<Tag>) -> ReadResult<(int, ServiceOptionsView)>
{
    if t == 264u32 {
        match <raw::Bool as Value>::decoding(rest) { Ok((m, x)) => Ok((m, ServiceOptionsView { deprecated: Some(x), ..v })), Err(e) => Err(e) }
    } else if t == 7994u32 {
        match length_delimited_read(rest) { Err(e) => Err(e), Ok((m, b)) => if depth >= limit { Err(ReadError::RecursionLimitExceeded) } else { match uninterpreted_option_merged(uninterpreted_option_default(), b, depth + 1, limit, skip, eg) { Ok(y) => Ok((m, ServiceOptionsView { uninterpreted_option: v.uninterpreted_option.push(y), ..v })), Err(e) => Err(e) } } }
    } else {
        match unknown_field_read(v.unknown_fields, t, rest, depth, limit, skip, eg) {
            Ok((m, u)) => Ok((m, ServiceOptionsView { unknown_fields: u, ..v })),
            Err(e) => Err(e),
        }
    }
}

/// What reading all of `s` into `v` as `ServiceOptions` fields gives: the message after, or the error.
/// `depth` and `limit` are the reader's depth and recursion limit, `skip` whether it skips
/// unknown fields, and `eg` the end tag of the group it is in.
pub open spec fn service_options_merged(v: ServiceOptionsView, s: Seq<u8>, depth: nat, limit: nat, skip: bool, eg: Option<Tag>) -> ReadResult<ServiceOptionsView>
    decreases s.len(),
{
    if s.len() == 0 {
        Ok(v)
    } else {
        match varint_read(s) {
            Err(e) => Err(e),
            Ok((n, w)) => if n < 1 || n > s.len() {
                Err(eof())
            } else {
                match service_options_field_read(v, w as u32, s.skip(n), depth, limit, skip, eg) {
                    Err(e) => Err(e),
                    Ok((m, v2)) => if m < 0 || n + m > s.len() {
                        Err(eof())
                    } else {
                        service_options_merged(v2, s.skip(n + m), depth, limit, skip, eg)
                    },
                }
            },
        }
    }
}

/// Reads a `ServiceOptions` from the reader as a length delimited value, merging it into `this`, one
/// level deeper.
fn merge_service_options_delimited(this: &mut ServiceOptions, input: &mut CodedReader) -> (r: ReadResult<()>)
    ensures
        match length_delimited_read(old(input).available()) {
            Err(e) => r == Err::<(), ReadError>(e) && same_config(*old(input), *final(input)),
            Ok((m, b)) => if old(input).depth() >= old(input).recursion_limit() {
                r == Err::<(), ReadError>(ReadError::RecursionLimitExceeded) && same_config(*old(input), *final(input))
            } else {
                match service_options_merged(old(this)@, b, old(input).depth() + 1, old(input).recursion_limit(), skips(*old(input)), old(input).end_group_view()) {
                    Ok(y) => r is Ok && final(this)@ == y && final(input).position() == old(input).position() + m
                        && same_state(*old(input), *final(input)),
                    Err(e) => r == Err::<(), ReadError>(e) && same_config(*old(input), *final(input)),
                }
            },
        },
{
    let rem0 = input.remaining();
    let ghost s = input.available();
    let ghost start = *input;
    let length = match input.read_length() {
        Ok(l) => l,
        Err(e) => return Err(e),
    };
    let rem1 = input.remaining();
    let ghost n0 = input.position() - start.position();
    proof {
        lemma_varint_read_len(s);
        assert(input.available() =~= s.skip(n0));
    }
    let previous = match input.push_length(length) {
        Ok(p) => p,
        Err(e) => return Err(e),
    };
    let rem2 = input.remaining();
    let ghost b = s.subrange(n0, n0 + length@);
    proof {
        assert(input.available() =~= b);
        assert(length_delimited_read(s) == Ok::<(int, Seq<u8>), ReadError>((n0 + length@, b)));
    }
    let ghost pushed = *input;
    match input.increment_recursion_count() {
        Ok(()) => {},
        Err(e) => {
            input.pop_length(previous);
            return Err(e);
        },
    }
    let r = this.merge_from(input);
    let rem3 = input.remaining();
    input.decrement_recursion_count();
    input.pop_length(previous);
    r
}

/// The parts an optional `ServiceOptions` field with field number `num` is written as: nothing where it
/// is not set, else its tag, its length and its parts.
pub open spec fn service_options_opt_parts(num: u32, o: Option<ServiceOptionsView>) -> Seq<(bool, Seq<u8>)> {
    match o {
        Some(y) => entry_parts(num, service_options_parts(y)),
        None => Seq::empty(),
    }
}

/// Adds the size of an optional `ServiceOptions` field with field number `num` to the builder.
fn service_options_opt_size(o: &Option<ServiceOptions>, b: LengthBuilder, num: FieldNumber) -> (r: Option<LengthBuilder>)
    ensures
        size_added(b@ as int, parts_encodable(service_options_opt_parts(num@, opt_view(*o))), parts_bytes(service_options_opt_parts(num@, opt_view(*o))).len() as int, r),
{
    match o {
        Some(y) => {
            let len = y.calculate_size();
            add_entry_size(b, num, len, Ghost(service_options_parts(y@)))
        },
        None => {
            proof {
                assert(parts_encodable(Seq::<(bool, Seq<u8>)>::empty()));
                assert(parts_bytes(Seq::<(bool, Seq<u8>)>::empty()).len() == 0);
            }
            Some(b)
        },
    }
}

/// Writes an optional `ServiceOptions` field with field number `num`: nothing where it is not set, else
/// its tag, its length and its fields.
fn write_service_options_opt(o: &Option<ServiceOptions>, output: &mut CodedWriter, num: FieldNumber) -> (r: WriteResult)
    ensures
        (final(output).written(), r) == parts_written(old(output).written(), old(output).capacity(), service_options_opt_parts(num@, opt_view(*o))),
        final(output).capacity() == old(output).capacity(),
        (*final(final(output).target()))@ == (*final(old(output).target()))@,
{
    match o {
        Some(y) => {
            let ghost p = service_options_parts(y@);
            let ghost head = entry_head(num@, p);
            let ghost w0 = output.written();
            let ghost cap = output.capacity();
            proof {
                lemma_parts_written_append(w0, cap, head, p);
                reveal_with_fuel(parts_written, 3);
                assert(head.drop_first().drop_first() =~= Seq::<(bool, Seq<u8>)>::empty());
                lemma_varint_roundtrip(tag_value(num@, WireType::LengthDelimited) as u64);
            }
            match output.write_tag(Tag::new(num, WireType::LengthDelimited)) {
                Ok(()) => {},
                Err(e) => return Err(e),
            }
            let len = match y.calculate_size() {
                Some(len) => len,
                None => return Err(WriteError::ValueTooLarge),
            };
            proof {
                lemma_varint_roundtrip(len@ as u64);
            }
            match output.write_length(len) {
                Ok(()) => {},
                Err(e) => return Err(e),
            }
            y.write_to(output)
        },
        None => Ok(()),
    }
}

impl ServiceOptions {
    /// Gets the unknown fields of the message.
    pub fn unknown_fields(&self) -> (r: &UnknownFieldSet)
        ensures
            r@ == self@.unknown_fields,
    {
        &self.unknown_fields
    }

    /// Gets the unknown fields of the message for changing them.
    pub fn unknown_fields_mut(&mut self) -> (r: &mut UnknownFieldSet)
        ensures
            (*r)@ == old(self)@.unknown_fields,
            final(self)@ == (ServiceOptionsView { unknown_fields: (*final(r))@, ..old(self)@ }),
    {
        &mut self.unknown_fields
    }

    /// Returns whether the message is initialized: whether all its required fields are set.
    pub fn is_initialized(&self) -> (r: bool)
        ensures
            r,
    {
        if !crate::is_initialized(&self.uninterpreted_option) {
            return false;
        }
        true
    }

    /// Calculates the size of the message as it is written: `None` if a part cannot be
    /// written or the size does not fit in a length.
    #[verifier::spinoff_prover]
    pub fn calculate_size(&self) -> (r: Option<Length>)
        ensures
            opt_length(r) == parts_size(service_options_parts(self@)),
    {
        let ghost v = self@;
        let ghost all = service_options_parts(v);
        let b0 = LengthBuilder::new();
        let ghost d0 = Seq::<(bool, Seq<u8>)>::empty();
        proof {
            reveal(service_options_parts);
            assert(all =~= d0 + all);
        }
        let ghost p1 = opt_field_parts::<raw::Bool>(33u32, v.deprecated);
        let ghost rest1 = uninterpreted_option_seq_parts(999u32, v.uninterpreted_option) + (set_parts(v.unknown_fields));
        proof {
            assert(self@.deprecated == opt_inner_view::<raw::Bool>(self.deprecated));
            assert(all == d0 + (p1 + rest1));
            assert(d0 + (p1 + rest1) =~= d0 + p1 + rest1);
        }
        let r1 = add_opt_field::<raw::Bool>(b0, FieldNumber::new_unchecked(33), &self.deprecated);
        proof {
            lemma_size_chain(0, d0, p1, Some(b0), r1);
            if r1 is None {
                lemma_size_chain(0, d0 + p1, rest1, r1, r1);
            }
        }
        let b1 = match r1 {
            Some(b) => b,
            None => return None,
        };
        let ghost d1 = d0 + p1;
        let ghost p2 = uninterpreted_option_seq_parts(999u32, v.uninterpreted_option);
        let ghost rest2 = set_parts(v.unknown_fields);
        proof {
            assert(all == d1 + (p2 + rest2));
            assert(d1 + (p2 + rest2) =~= d1 + p2 + rest2);
        }
        let r2 = uninterpreted_option_values_size(&self.uninterpreted_option, b1, FieldNumber::new_unchecked(999));
        proof {
            lemma_size_chain(0, d1, p2, Some(b1), r2);
            if r2 is None {
                lemma_size_chain(0, d1 + p2, rest2, r2, r2);
            }
        }
        let b2 = match r2 {
            Some(b) => b,
            None => return None,
        };
        let ghost d2 = d1 + p2;
        let ghost p3 = set_parts(v.unknown_fields);
        let ghost rest3 = Seq::<(bool, Seq<u8>)>::empty();
        proof {
            assert(all == d2 + p3);
            assert(p3 + rest3 =~= p3);
            assert(d2 + (p3 + rest3) =~= d2 + p3 + rest3);
        }
        let r3 = self.unknown_fields.calculate_size(b2);
        proof {
            lemma_size_chain(0, d2, p3, Some(b2), r3);
            if r3 is None {
                lemma_size_chain(0, d2 + p3, rest3, r3, r3);
            }
        }
        let b3 = match r3 {
            Some(b) => b,
            None => return None,
        };
        let ghost d3 = d2 + p3;
        Some(b3.build())
    }

    /// Writes the message to the writer: its fields that are set, in field number order, then
    /// its unknown fields.
    #[verifier::spinoff_prover]
    pub fn write_to(&self, output: &mut CodedWriter) -> (r: WriteResult)
        ensures
            (final(output).written(), r) == parts_written(old(output).written(), old(output).capacity(), service_options_parts(self@)),
            final(output).capacity() == old(output).capacity(),
            (*final(final(output).target()))@ == (*final(old(output).target()))@,
    {
        let ghost v = self@;
        let ghost all = service_options_parts(v);
        let ghost start = output.written();
        let ghost cap = output.capacity();
        let ghost d0 = Seq::<(bool, Seq<u8>)>::empty();
        proof {
            reveal(service_options_parts);
            assert(all =~= d0 + all);
        }
        let ghost p1 = opt_field_parts::<raw::Bool>(33u32, v.deprecated);
        let ghost rest1 = uninterpreted_option_seq_parts(999u32, v.uninterpreted_option) + (set_parts(v.unknown_fields));
        proof {
            assert(self@.deprecated == opt_inner_view::<raw::Bool>(self.deprecated));
            assert(all == d0 + (p1 + rest1));
            assert(d0 + (p1 + rest1) =~= d0 + p1 + rest1);
            lemma_parts_written_append(start, cap, d0, p1);
            lemma_parts_written_append(start, cap, d0 + p1, rest1);
        }
        match write_opt_field::<raw::Bool>(output, FieldNumber::new_unchecked(33), &self.deprecated) {
            Ok(()) => {},
            Err(e) => return Err(e),
        }
        let ghost d1 = d0 + p1;
        let ghost p2 = uninterpreted_option_seq_parts(999u32, v.uninterpreted_option);
        let ghost rest2 = set_parts(v.unknown_fields);
        proof {
            assert(all == d1 + (p2 + rest2));
            assert(d1 + (p2 + rest2) =~= d1 + p2 + rest2);
            lemma_parts_written_append(start, cap, d1, p2);
            lemma_parts_written_append(start, cap, d1 + p2, rest2);
        }
        match write_uninterpreted_option_values(&self.uninterpreted_option, output, FieldNumber::new_unchecked(999)) {
            Ok(()) => {},
            Err(e) => return Err(e),
        }
        let ghost d2 = d1 + p2;
        let ghost p3 = set_parts(v.unknown_fields);
        let ghost rest3 = Seq::<(bool, Seq<u8>)>::empty();
        proof {
            assert(all == d2 + p3);
            assert(p3 + rest3 =~= p3);
            assert(d2 + (p3 + rest3) =~= d2 + p3 + rest3);
            lemma_parts_written_append(start, cap, d2, p3);
            lemma_parts_written_append(start, cap, d2 + p3, rest3);
        }
        match self.unknown_fields.write_to(output) {
            Ok(()) => {},
            Err(e) => return Err(e),
        }
        let ghost d3 = d2 + p3;
        proof {
            assert(all =~= d3 + Seq::<(bool, Seq<u8>)>::empty());
            assert(all == d3);
            lemma_ok_unit(parts_written(start, cap, all).1);
        }
        Ok(())
    }

    /// Reads the value of the field whose tag value `t` was just read into the message.
    #[verifier::spinoff_prover]
    fn merge_field(&mut self, t: u32, input: &mut CodedReader) -> (r: ReadResult<()>)
        ensures
            match service_options_field_read(old(self)@, t, old(input).available(), old(input).depth(), old(input).recursion_limit(), skips(*old(input)), old(input).end_group_view()) {
                Ok((m, v2)) => r is Ok && final(self)@ == v2 && m >= 0 && final(input).position()
                    == old(input).position() + m && same_state(*old(input), *final(input)),
                Err(e) => r == Err::<(), ReadError>(e) && same_config(*old(input), *final(input)),
            },
    {
        let rem0 = input.remaining();
        let ghost rest = input.available();
        if t == 264u32 {
            proof {
                <raw::Bool as Value>::lemma_decoding_len(rest);
            }
            input.set_last_tag(Some(Tag::new(FieldNumber::new_unchecked(33), WireType::Varint)));
            match <raw::Bool as Value>::merge_from(self.deprecated.get_or_insert(false), input) {
                Ok(()) => {},
                Err(e) => return Err(e),
            }
        } else if t == 7994u32 {
            proof {
                lemma_length_delimited_read_len(rest);
            }
            input.set_last_tag(Some(Tag::new(FieldNumber::new_unchecked(999), WireType::LengthDelimited)));
            let mut y = UninterpretedOption::default();
            match merge_uninterpreted_option_delimited(&mut y, input) {
                Ok(()) => {},
                Err(e) => return Err(e),
            }
            let ghost old_values = self.uninterpreted_option@;
            self.uninterpreted_option.push(y);
            proof {
                assert(self.uninterpreted_option@.subrange(0, self.uninterpreted_option@.len() - 1) =~= old_values);
            }
        } else {
            let tag = match Tag::try_from(t) {
                Ok(tag) => tag,
                Err(_) => return Err(ReadError::InvalidTag(t)),
            };
            input.set_last_tag(Some(tag));
            match self.unknown_fields.try_add_field_from(input) {
                Ok(TryRead::Consumed) => {},
                Ok(TryRead::Yielded) => match input.skip() {
                    Ok(()) => {},
                    Err(e) => return Err(e),
                },
                Err(e) => return Err(e),
            }
        }
        let rem1 = input.remaining();
        Ok(())
    }

    /// Merges the message with fields read from the reader, up to its limit. Scalar fields
    /// read replace those set, message fields are merged, repeated fields are added to,
    /// and unknown fields are stored or skipped as the reader says. On an error the message
    /// may hold some of the fields read before it.
    #[verifier::spinoff_prover]
    #[verifier::rlimit(50)]
    pub fn merge_from(&mut self, input: &mut CodedReader) -> (r: ReadResult<()>)
        ensures
            merge_outcome(service_options_merged(old(self)@, old(input).available(), old(input).depth(), old(input).recursion_limit(), skips(*old(input)), old(input).end_group_view()), final(self)@, *old(input), *final(input), r),
    {
        let rem0 = input.remaining();
        let ghost start = *input;
        let ghost total = service_options_merged(self@, input.available(), input.depth(), input.recursion_limit(), skips(*input), input.end_group_view());
        loop
            invariant
                start == *old(input),
                same_state(start, *input),
                0 <= start.position() <= input.position(),
                input.limit_end() <= input.input().len(),
                total == service_options_merged(old(self)@, start.available(), start.depth(), start.recursion_limit(), skips(start), start.end_group_view()),
                total == service_options_merged(self@, input.available(), start.depth(), start.recursion_limit(), skips(start), start.end_group_view()),
            decreases input.available().len(),
        {
            let ghost s = input.available();
            let ghost before = *input;
            let ghost v = self@;
            let t = match input.read_field() {
                Ok(Some(t)) => t,
                Ok(None) => return Ok(()),
                Err(e) => return Err(e),
            };
            let rem1 = input.remaining();
            let ghost n = input.position() - before.position();
            proof {
                lemma_varint_read_len(s);
                assert(input.available() =~= s.skip(n));
            }
            let ghost mid = *input;
            match self.merge_field(t, input) {
                Ok(()) => {},
                Err(e) => return Err(e),
            }
            let rem2 = input.remaining();
            proof {
                let m = input.position() - mid.position();
                assert(input.available() =~= s.skip(n + m));
            }
        }
    }
}

impl crate::Message for ServiceOptions {
    open spec fn merged(v: ServiceOptionsView, s: Seq<u8>, depth: nat, limit: nat, skip: bool, eg: Option<Tag>) -> ReadResult<ServiceOptionsView> {
        service_options_merged(v, s, depth, limit, skip, eg)
    }

    open spec fn parts(v: ServiceOptionsView) -> Seq<(bool, Seq<u8>)> {
        service_options_parts(v)
    }

    open spec fn initialized(v: ServiceOptionsView) -> bool {
        true
    }

    open spec fn unknown_fields_of(v: ServiceOptionsView) -> Seq<(u32, Seq<FieldValue>)> {
        v.unknown_fields
    }

    open spec fn with_unknown_fields(v: ServiceOptionsView, u: Seq<(u32, Seq<FieldValue>)>) -> ServiceOptionsView {
        ServiceOptionsView { unknown_fields: u, ..v }
    }

    fn merge_from(&mut self, input: &mut CodedReader) -> (r: ReadResult<()>) {
        ServiceOptions::merge_from(self, input)
    }

    fn calculate_size(&self) -> (r: Option<Length>) {
        ServiceOptions::calculate_size(self)
    }

    fn write_to(&self, output: &mut CodedWriter) -> (r: WriteResult) {
        ServiceOptions::write_to(self, output)
    }

    fn is_initialized(&self) -> (r: bool) {
        ServiceOptions::is_initialized(self)
    }

    fn unknown_fields(&self) -> (r: &UnknownFieldSet) {
        ServiceOptions::unknown_fields(self)
    }

    fn unknown_fields_mut(&mut self) -> (r: &mut UnknownFieldSet) {
        ServiceOptions::unknown_fields_mut(self)
    }
}

impl DebugMessage for ServiceOptions {
    open spec fn spec_full_name() -> Seq<char> {
        "google.protobuf.ServiceOptions"@
    }

    open spec fn spec_name() -> Seq<char> {
        "ServiceOptions"@
    }

    fn full_name() -> (r: &'static str) {
        "google.protobuf.ServiceOptions"
    }

    fn name() -> (r: &'static str) {
        "ServiceOptions"
    }
}

/// Whether `t` is the tag of a field a `ServiceOptions` reads.
pub open spec fn service_options_known_tag(t: u32) -> bool {
    t == 264u32 || t == 7994u32
}

/// Whether a `ServiceOptions` is read back as it is written, at nesting depth `depth` of a reader with
/// recursion limit `limit`: its messages are read back as written one level deeper, within
/// the limit; and its unknown fields are read back as written, none with the tag of one of
/// its fields.
pub open spec fn service_options_roundtrips(v: ServiceOptionsView, depth: nat, limit: nat) -> bool
{
    &&& (v.uninterpreted_option.len() > 0 ==> depth < limit)
    &&& forall|i: int| 0 <= i < v.uninterpreted_option.len() ==> uninterpreted_option_roundtrips(#[trigger] v.uninterpreted_option[i], depth + 1, limit)
    &&& set_readable(v.unknown_fields)
    &&& forall|k: int| 0 <= k < set_pairs(v.unknown_fields).len() ==> !service_options_known_tag(tag_value(
        #[trigger] set_pairs(v.unknown_fields)[k].0,
        field_value_wire_type(set_pairs(v.unknown_fields)[k].1),
    ))
}

/// Reading a `ServiceOptions` field whose tag is read from the front of `s` and whose value is read after
/// it continues with the rest of `s`.
proof fn lemma_service_options_step(v: ServiceOptionsView, s: Seq<u8>, k: int, t: u32, m: int, v2: ServiceOptionsView, depth: nat, limit: nat)
    requires
        varint_read(s) == Ok::<(int, u64), ReadError>((k, t as u64)),
        1 <= k <= s.len(),
        service_options_field_read(v, t, s.skip(k), depth, limit, false, None) == Ok::<(int, ServiceOptionsView), ReadError>((m, v2)),
        0 <= m,
        k + m <= s.len(),
    ensures
        service_options_merged(v, s, depth, limit, false, None) == service_options_merged(v2, s.skip(k + m), depth, limit, false, None),
{
    assert((t as u64) as u32 == t);
}

/// Reading the entries of `UninterpretedOption` values written as field `uninterpreted_option` of a `ServiceOptions` adds the values.
#[verifier::spinoff_prover]
#[verifier::rlimit(60)]
proof fn lemma_service_options_read_uninterpreted_option(v: ServiceOptionsView, ys: Seq<UninterpretedOptionView>, rest: Seq<u8>, depth: nat, limit: nat)
    requires
        parts_encodable(uninterpreted_option_seq_parts(999u32, ys)),
        ys.len() > 0 ==> depth < limit,
        forall|i: int| 0 <= i < ys.len() ==> uninterpreted_option_roundtrips(#[trigger] ys[i], depth + 1, limit),
    ensures
        service_options_merged(v, parts_bytes(uninterpreted_option_seq_parts(999u32, ys)) + rest, depth, limit, false, None) == service_options_merged(
            ServiceOptionsView { uninterpreted_option: v.uninterpreted_option + ys, ..v },
            rest,
            depth, limit, false, None,
        ),
    decreases ys.len(),
{
    if ys.len() == 0 {
        assert(parts_bytes(uninterpreted_option_seq_parts(999u32, ys)) + rest =~= rest);
        assert(v.uninterpreted_option + ys =~= v.uninterpreted_option);
    } else {
        let y = ys[0];
        let tail = ys.drop_first();
        assert forall|i: int| 0 <= i < tail.len() implies uninterpreted_option_roundtrips(#[trigger] tail[i], depth + 1, limit) by {
            assert(tail[i] == ys[i + 1]);
        }
        lemma_uninterpreted_option_seq_parts_front(999u32, ys);
        let ep = entry_parts(999u32, uninterpreted_option_parts(y));
        lemma_parts_encodable_two(ep, uninterpreted_option_seq_parts(999u32, tail));
        lemma_parts_bytes_append(ep, uninterpreted_option_seq_parts(999u32, tail));
        assert(ep[1].0);
        let after = parts_bytes(uninterpreted_option_seq_parts(999u32, tail)) + rest;
        let s = parts_bytes(uninterpreted_option_seq_parts(999u32, ys)) + rest;
        assert(s =~= parts_bytes(ep) + after);
        lemma_entry_bytes_read(999u32, uninterpreted_option_parts(y), after);
        lemma_tag_value(999u32, WireType::LengthDelimited);
        lemma_uninterpreted_option_roundtrip(y, depth + 1, limit);
        let hl = parts_bytes(ep).len() as int;
        let k = varint_len(7994u64) as int;
        let v2 = ServiceOptionsView { uninterpreted_option: v.uninterpreted_option.push(y), ..v };
        lemma_service_options_step(v, s, k, 7994u32, hl - k, v2, depth, limit);
        lemma_service_options_read_uninterpreted_option(v2, tail, rest, depth, limit);
        assert(v.uninterpreted_option.push(y) + tail =~= v.uninterpreted_option + ys);
    }
}

/// Reading the field `deprecated` of a `ServiceOptions` written from `o` sets it to `o`, whatever it held; nothing
/// is written, and nothing changes, for `None`.
proof fn lemma_service_options_read_deprecated(d: ServiceOptionsView, o: Option<bool>, rest: Seq<u8>, depth: nat, limit: nat)
    requires
        parts_encodable(opt_field_parts::<raw::Bool>(33u32, o)),
    ensures
        service_options_merged(d, parts_bytes(opt_field_parts::<raw::Bool>(33u32, o)) + rest, depth, limit, false, None) == service_options_merged(if o is Some { ServiceOptionsView { deprecated: o, ..d } } else { d }, rest, depth, limit, false, None),
{
    match o {
        None => {
            assert(parts_bytes(opt_field_parts::<raw::Bool>(33u32, o)) + rest =~= rest);
        },
        Some(x) => {
            let p = field_parts::<raw::Bool>(33u32, x);
            assert(p[1].0);
            let s = parts_bytes(p) + rest;
            lemma_field_bytes_read::<raw::Bool>(33u32, x, rest);
            lemma_tag_value(33u32, WireType::Varint);
            let hl = parts_bytes(p).len() as int;
            let k = varint_len(264u64) as int;
            let v2 = ServiceOptionsView { deprecated: Some(x), ..d };
            lemma_service_options_step(d, s, k, 264u32, hl - k, v2, depth, limit);
        },
    }
}

/// Reading unknown field values written one after the other into a `ServiceOptions`, none with the tag
/// of one of its fields, adds them to its unknown fields.
proof fn lemma_service_options_read_unknown(v: ServiceOptionsView, ps: Seq<(u32, FieldValue)>, rest: Seq<u8>, depth: nat, limit: nat)
    requires
        forall|k: int| 0 <= k < ps.len() ==> value_readable(#[trigger] ps[k].0, ps[k].1) && !service_options_known_tag(
            tag_value(ps[k].0, field_value_wire_type(ps[k].1)),
        ),
    ensures
        service_options_merged(v, parts_bytes(pairs_parts(ps)) + rest, depth, limit, false, None) == service_options_merged(
            ServiceOptionsView { unknown_fields: push_pairs(v.unknown_fields, ps), ..v },
            rest,
            depth, limit, false, None,
        ),
    decreases ps.len(),
{
    if ps.len() == 0 {
        assert(parts_bytes(pairs_parts(ps)) + rest =~= rest);
    } else {
        let n = ps[0].0;
        let fv = ps[0].1;
        let tail = ps.drop_first();
        assert forall|k: int| 0 <= k < tail.len() implies value_readable(#[trigger] tail[k].0, tail[k].1) && !service_options_known_tag(
            tag_value(tail[k].0, field_value_wire_type(tail[k].1)),
        ) by {
            assert(tail[k] == ps[k + 1]);
        }
        assert(value_readable(ps[0].0, ps[0].1));
        lemma_parts_bytes_append(field_value_parts(n, fv), pairs_parts(tail));
        let after = parts_bytes(pairs_parts(tail)) + rest;
        let s = parts_bytes(pairs_parts(ps)) + rest;
        assert(s =~= parts_bytes(field_value_parts(n, fv)) + after);
        lemma_read_value_bytes(n, fv, after);
        let t = tag_value(n, field_value_wire_type(fv));
        let hl = parts_bytes(field_value_parts(n, fv)).len() as int;
        let k = varint_len(t as u64) as int;
        let v2 = ServiceOptionsView { unknown_fields: view_push(v.unknown_fields, n, fv), ..v };
        lemma_service_options_step(v, s, k, t, hl - k, v2, depth, limit);
        lemma_service_options_read_unknown(v2, tail, rest, depth, limit);
    }
}

/// The writability of the parts of a `ServiceOptions` is that of each field's parts.
proof fn lemma_service_options_parts_encodable(v: ServiceOptionsView)
    ensures
        parts_encodable(service_options_parts(v)) == (parts_encodable(opt_field_parts::<raw::Bool>(33u32, v.deprecated)) && parts_encodable(uninterpreted_option_seq_parts(999u32, v.uninterpreted_option)) && parts_encodable(set_parts(v.unknown_fields))),
{
    reveal(service_options_parts);
    let p0 = opt_field_parts::<raw::Bool>(33u32, v.deprecated);
    let p1 = uninterpreted_option_seq_parts(999u32, v.uninterpreted_option);
    let p2 = set_parts(v.unknown_fields);
    let q2 = p2;
    let q1 = p1 + q2;
    lemma_parts_encodable_two(p1, q2);
    let q0 = p0 + q1;
    lemma_parts_encodable_two(p0, q1);
    assert(service_options_parts(v) == q0);
}

/// The bytes of the parts of a `ServiceOptions` are those of each field's parts, one after the other.
proof fn lemma_service_options_parts_bytes(v: ServiceOptionsView)
    ensures
        parts_bytes(service_options_parts(v)) == parts_bytes(opt_field_parts::<raw::Bool>(33u32, v.deprecated)) + (parts_bytes(uninterpreted_option_seq_parts(999u32, v.uninterpreted_option)) + parts_bytes(set_parts(v.unknown_fields))),
{
    reveal(service_options_parts);
    let p0 = opt_field_parts::<raw::Bool>(33u32, v.deprecated);
    let p1 = uninterpreted_option_seq_parts(999u32, v.uninterpreted_option);
    let p2 = set_parts(v.unknown_fields);
    let q2 = p2;
    let q1 = p1 + q2;
    lemma_parts_bytes_append(p1, q2);
    let q0 = p0 + q1;
    lemma_parts_bytes_append(p0, q1);
    assert(service_options_parts(v) == q0);
}

/// The message a `ServiceOptions` `d` becomes when `v` is merged into it: each field `v` holds once
/// replaces the one `d` holds, the values of each repeated field of `v` follow those of `d`,
/// and the unknown fields of `v` are added to those of `d`, field number by field number.
pub open spec fn service_options_merge_view(d: ServiceOptionsView, v: ServiceOptionsView) -> ServiceOptionsView {
    ServiceOptionsView { deprecated: newer_or(v.deprecated, d.deprecated), uninterpreted_option: d.uninterpreted_option + v.uninterpreted_option, unknown_fields: view_merge(d.unknown_fields, v.unknown_fields) }
}

/// Reading the bytes of the parts of a `ServiceOptions` `v`, field by field, into `d` merges `v` into `d`.
#[verifier::spinoff_prover]
#[verifier::rlimit(60)]
proof fn lemma_service_options_merge_all(d: ServiceOptionsView, v: ServiceOptionsView, depth: nat, limit: nat)
    requires
        parts_encodable(opt_field_parts::<raw::Bool>(33u32, v.deprecated)),
        parts_encodable(uninterpreted_option_seq_parts(999u32, v.uninterpreted_option)),
        service_options_roundtrips(v, depth, limit),
        parts_bytes(service_options_parts(v)) == parts_bytes(opt_field_parts::<raw::Bool>(33u32, v.deprecated)) + (parts_bytes(uninterpreted_option_seq_parts(999u32, v.uninterpreted_option)) + parts_bytes(set_parts(v.unknown_fields))),
    ensures
        service_options_merged(d, parts_bytes(service_options_parts(v)), depth, limit, false, None) == Ok::<ServiceOptionsView, ReadError>(service_options_merge_view(d, v)),
{
    let p0 = opt_field_parts::<raw::Bool>(33u32, v.deprecated);
    let p1 = uninterpreted_option_seq_parts(999u32, v.uninterpreted_option);
    let p2 = set_parts(v.unknown_fields);
    let b0 = parts_bytes(p0);
    let b1 = parts_bytes(p1);
    let b2 = parts_bytes(p2);
    let r2 = b2;
    let r1 = b1 + r2;
    let r0 = b0 + r1;
    let d0 = d;
    let d1 = ServiceOptionsView { deprecated: newer_or(v.deprecated, d.deprecated), ..d0 };
    assert(service_options_merged(d0, r0, depth, limit, false, None) == service_options_merged(d1, r1, depth, limit, false, None)) by {
        lemma_service_options_read_deprecated(d0, v.deprecated, r1, depth, limit);
        assert((if v.deprecated is Some { ServiceOptionsView { deprecated: v.deprecated, ..d0 } } else { d0 }) == d1);
    }
    let d2 = ServiceOptionsView { uninterpreted_option: d.uninterpreted_option + v.uninterpreted_option, ..d1 };
    assert(service_options_merged(d1, r1, depth, limit, false, None) == service_options_merged(d2, r2, depth, limit, false, None)) by {
        lemma_service_options_read_uninterpreted_option(d1, v.uninterpreted_option, r2, depth, limit);
        assert(ServiceOptionsView { uninterpreted_option: d1.uninterpreted_option + v.uninterpreted_option, ..d1 } == d2);
    }
    let ps = set_pairs(v.unknown_fields);
    assert(service_options_merged(d2, r2, depth, limit, false, None) == Ok::<ServiceOptionsView, ReadError>(service_options_merge_view(d, v))) by {
        lemma_set_pairs(v.unknown_fields, d.unknown_fields);
        lemma_entries_readable(v.unknown_fields);
        assert forall|k: int| 0 <= k < ps.len() implies value_readable(#[trigger] ps[k].0, ps[k].1) && !service_options_known_tag(
            tag_value(ps[k].0, field_value_wire_type(ps[k].1)),
        ) by {
            assert(!service_options_known_tag(tag_value(set_pairs(v.unknown_fields)[k].0, field_value_wire_type(set_pairs(v.unknown_fields)[k].1))));
        }
        lemma_service_options_read_unknown(d2, ps, Seq::empty(), depth, limit);
        assert(b2 + Seq::<u8>::empty() =~= b2);
        let dl = ServiceOptionsView { unknown_fields: push_pairs(d2.unknown_fields, ps), ..d2 };
        assert(dl == service_options_merge_view(d, v));
    }
}

/// Reading the bytes of the parts of a `ServiceOptions`, field by field, gives the message back.
proof fn lemma_service_options_read_all(v: ServiceOptionsView, depth: nat, limit: nat)
    requires
        parts_encodable(opt_field_parts::<raw::Bool>(33u32, v.deprecated)),
        parts_encodable(uninterpreted_option_seq_parts(999u32, v.uninterpreted_option)),
        service_options_roundtrips(v, depth, limit),
        parts_bytes(service_options_parts(v)) == parts_bytes(opt_field_parts::<raw::Bool>(33u32, v.deprecated)) + (parts_bytes(uninterpreted_option_seq_parts(999u32, v.uninterpreted_option)) + parts_bytes(set_parts(v.unknown_fields))),
    ensures
        service_options_merged(service_options_default(), parts_bytes(service_options_parts(v)), depth, limit, false, None) == Ok::<ServiceOptionsView, ReadError>(v),
{
    lemma_service_options_merge_all(service_options_default(), v, depth, limit);
    lemma_entries_readable(v.unknown_fields);
    lemma_merge_into_empty(v.unknown_fields);
    assert(Seq::empty() + v.uninterpreted_option =~= v.uninterpreted_option);
    assert(service_options_merge_view(service_options_default(), v) == v);
}

/// Merging what a `ServiceOptions` `v` writes into a message `d` merges `v` into `d`: each field `v`
/// holds replaces the one `d` holds, repeated values follow those `d` holds, and unknown fields
/// are added to those of `d`, where `d` holds none of the message fields `v` holds (those are
/// merged into each other), at nesting depth `depth` of a reader with recursion limit `limit`
/// that keeps unknown fields, outside any group, where `v` is read back as written.
pub proof fn lemma_service_options_merge_written(d: ServiceOptionsView, v: ServiceOptionsView, depth: nat, limit: nat)
    requires
        parts_encodable(service_options_parts(v)),
        service_options_roundtrips(v, depth, limit),
    ensures
        service_options_merged(d, parts_bytes(service_options_parts(v)), depth, limit, false, None) == Ok::<ServiceOptionsView, ReadError>(service_options_merge_view(d, v)),
{
    lemma_service_options_parts_encodable(v);
    lemma_service_options_parts_bytes(v);
    lemma_service_options_merge_all(d, v, depth, limit);
}

/// A `ServiceOptions` is read back as it is written: merging the bytes of its parts into a default
/// message, at nesting depth `depth` of a reader with recursion limit `limit` that keeps
/// unknown fields, outside any group, gives the message back, where it is read back as written.
pub proof fn lemma_service_options_roundtrip(v: ServiceOptionsView, depth: nat, limit: nat)
    requires
        parts_encodable(service_options_parts(v)),
        service_options_roundtrips(v, depth, limit),
    ensures
        service_options_merged(service_options_default(), parts_bytes(service_options_parts(v)), depth, limit, false, None) == Ok::<ServiceOptionsView, ReadError>(v),
{
    lemma_service_options_parts_encodable(v);
    lemma_service_options_parts_bytes(v);
    lemma_service_options_read_all(v, depth, limit);
}

/// The `MethodOptions` message of `descriptor.proto`.
#[derive(Clone, Debug)]
pub struct MethodOptions {
    deprecated: Option<bool>,
    idempotency_level: Option<IdempotencyLevel>,
    uninterpreted_option: RepeatedField<UninterpretedOption>,
    unknown_fields: UnknownFieldSet,
}

/// The view of a `MethodOptions`: its fields, and its unknown fields.
pub struct MethodOptionsView {
    /// The `deprecated` field.
    pub deprecated: Option<bool>,
    /// The `idempotency_level` field.
    pub idempotency_level: Option<i32>,
    /// The `uninterpreted_option` field.
    pub uninterpreted_option: Seq<UninterpretedOptionView>,
    /// The unknown fields.
    pub unknown_fields: Seq<(u32, Seq<FieldValue>)>,
}

/// The view of a `MethodOptions` value.
pub closed spec fn method_options_view(m: MethodOptions) -> MethodOptionsView
{
    MethodOptionsView {
        deprecated: m.deprecated,
        idempotency_level: opt_view(m.idempotency_level),
        uninterpreted_option: uninterpreted_option_seq_view(m.uninterpreted_option@),
        unknown_fields: m.unknown_fields@,
    }
}

/// The view of a `MethodOptions` with no field set.
pub open spec fn method_options_default() -> MethodOptionsView {
    MethodOptionsView {
        deprecated: None,
        idempotency_level: None,
        uninterpreted_option: Seq::empty(),
        unknown_fields: Seq::empty(),
    }
}

impl View for MethodOptions {
    type V = MethodOptionsView;

    open spec fn view(&self) -> MethodOptionsView {
        method_options_view(*self)
    }
}

impl Default for MethodOptions {
    /// A message with no field set.
    fn default() -> (r: MethodOptions)
        ensures
            r@ == method_options_default(),
    {
        let r = MethodOptions {
            deprecated: None,
            idempotency_level: None,
            uninterpreted_option: Vec::new(),
            unknown_fields: UnknownFieldSet::new(),
        };
        proof {
            assert(uninterpreted_option_seq_view(r.uninterpreted_option@) =~= Seq::empty());
            assert(r@ =~= method_options_default());
        }
        r
    }
}

impl MethodOptions {
    /// Gets the `deprecated` field, or its default, `false`.
    pub fn deprecated(&self) -> (r: bool)
        ensures
            r == self@.deprecated.unwrap_or(false),
    {
        match self.deprecated {
            Some(v) => v,
            None => false,
        }
    }

    /// Gets the `deprecated` field if it is set.
    pub fn deprecated_option(&self) -> (r: Option<&bool>)
        ensures
            opt_ref_view(r) == self@.deprecated,
    {
        self.deprecated.as_ref()
    }

    /// Gets the `deprecated` field for changing it, setting it to its type's default first if it
    /// is not set.
    pub fn deprecated_mut(&mut self) -> (r: &mut bool)
        ensures
            (*r)@ == old(self)@.deprecated.unwrap_or(false),
            final(self)@ == (MethodOptionsView { deprecated: Some((*final(r))@), ..old(self)@ }),
    {
        self.deprecated.get_or_insert(false)
    }

    /// Returns whether the `deprecated` field is set.
    pub fn has_deprecated(&self) -> (r: bool)
        ensures
            r == self@.deprecated is Some,
    {
        self.deprecated.is_some()
    }

    /// Sets the `deprecated` field.
    pub fn set_deprecated(&mut self, value: bool)
        ensures
            final(self)@ == (MethodOptionsView { deprecated: Some(value@), ..old(self)@ }),
    {
        self.deprecated = Some(value);
    }

    /// Takes the `deprecated` field out, leaving it unset.
    pub fn take_deprecated(&mut self) -> (r: Option<bool>)
        ensures
            opt_view(r) == old(self)@.deprecated,
            final(self)@ == (MethodOptionsView { deprecated: None, ..old(self)@ }),
    {
        self.deprecated.take()
    }

    /// Clears the `deprecated` field, leaving it unset.
    pub fn clear_deprecated(&mut self)
        ensures
            final(self)@ == (MethodOptionsView { deprecated: None, ..old(self)@ }),
    {
        self.deprecated = None;
    }

    /// Gets the `idempotency_level` field, or its default, `IDEMPOTENCY_UNKNOWN`.
    pub fn idempotency_level(&self) -> (r: IdempotencyLevel)
        ensures
            r@ == self@.idempotency_level.unwrap_or(0i32),
    {
        match self.idempotency_level {
            Some(v) => v,
            None => IdempotencyLevel::IDEMPOTENCY_UNKNOWN(),
        }
    }

    /// Gets the `idempotency_level` field if it is set.
    pub fn idempotency_level_option(&self) -> (r: Option<&IdempotencyLevel>)
        ensures
            opt_ref_view(r) == self@.idempotency_level,
    {
        self.idempotency_level.as_ref()
    }

    /// Gets the `idempotency_level` field for changing it, setting it to its type's default first if it
    /// is not set.
    pub fn idempotency_level_mut(&mut self) -> (r: &mut IdempotencyLevel)
        ensures
            (*r)@ == old(self)@.idempotency_level.unwrap_or(0i32),
            final(self)@ == (MethodOptionsView { idempotency_level: Some((*final(r))@), ..old(self)@ }),
    {
        self.idempotency_level.get_or_insert(IdempotencyLevel(0))
    }

    /// Returns whether the `idempotency_level` field is set.
    pub fn has_idempotency_level(&self) -> (r: bool)
        ensures
            r == self@.idempotency_level is Some,
    {
        self.idempotency_level.is_some()
    }

    /// Sets the `idempotency_level` field.
    pub fn set_idempotency_level(&mut self, value: IdempotencyLevel)
        ensures
            final(self)@ == (MethodOptionsView { idempotency_level: Some(value@), ..old(self)@ }),
    {
        self.idempotency_level = Some(value);
    }

    /// Takes the `idempotency_level` field out, leaving it unset.
    pub fn take_idempotency_level(&mut self) -> (r: Option<IdempotencyLevel>)
        ensures
            opt_view(r) == old(self)@.idempotency_level,
            final(self)@ == (MethodOptionsView { idempotency_level: None, ..old(self)@ }),
    {
        self.idempotency_level.take()
    }

    /// Clears the `idempotency_level` field, leaving it unset.
    pub fn clear_idempotency_level(&mut self)
        ensures
            final(self)@ == (MethodOptionsView { idempotency_level: None, ..old(self)@ }),
    {
        self.idempotency_level = None;
    }

    /// Gets the values of the `uninterpreted_option` field.
    pub fn uninterpreted_option(&self) -> (r: &RepeatedField<UninterpretedOption>)
        ensures
            uninterpreted_option_seq_view(r@) == self@.uninterpreted_option,
    {
        &self.uninterpreted_option
    }

    /// Gets the values of the `uninterpreted_option` field for changing them.
    pub fn uninterpreted_option_mut(&mut self) -> (r: &mut RepeatedField<UninterpretedOption>)
        ensures
            uninterpreted_option_seq_view((*r)@) == old(self)@.uninterpreted_option,
            final(self)@ == (MethodOptionsView { uninterpreted_option: uninterpreted_option_seq_view((*final(r))@), ..old(self)@ }),
    {
        &mut self.uninterpreted_option
    }
}

/// The parts a `MethodOptions` is written as: its fields that are set, in field number order, then its
/// unknown fields.
#[verifier::opaque]
pub open spec fn method_options_parts(v: MethodOptionsView) -> Seq<(bool, Seq<u8>)>
{
    opt_field_parts::<raw::Bool>(33u32, v.deprecated) + (opt_field_parts::<raw::Enum<method_options::IdempotencyLevel>>(34u32, v.idempotency_level) + (uninterpreted_option_seq_parts(999u32, v.uninterpreted_option) + (set_parts(v.unknown_fields))))
}

/// What reading the field with tag value `t` from the front of `rest` into `v` gives: the
/// number of bytes read and the message after, or the error.
pub open spec fn method_options_field_read(v: MethodOptionsView, t: u32, rest: Seq<u8>, depth: nat, limit: nat, skip: bool, eg: Option<Tag>) -> ReadResult<(int, MethodOptionsView)>
{
    if t == 264u32 {
        match <raw::Bool as Value>::decoding(rest) { Ok((m, x)) => Ok((m, MethodOptionsView { deprecated: Some(x), ..v })), Err(e) => Err(e) }
    } else if t == 272u32 {
        match <raw::Enum<method_options::IdempotencyLevel> as Value>::decoding(rest) { Ok((m, x)) => Ok((m, MethodOptionsView { idempotency_level: Some(x), ..v })), Err(e) => Err(e) }
    } else if t == 7994u32 {
        match length_delimited_read(rest) { Err(e) => Err(e), Ok((m, b)) => if depth >= limit { Err(ReadError::RecursionLimitExceeded) } else { match uninterpreted_option_merged(uninterpreted_option_default(), b, depth + 1, limit, skip, eg) { Ok(y) => Ok((m, MethodOptionsView { uninterpreted_option: v.uninterpreted_option.push(y), ..v })), Err(e) => Err(e) } } }
    } else {
        match unknown_field_read(v.unknown_fields, t, rest, depth, limit, skip, eg) {
            Ok((m, u)) => Ok((m, MethodOptionsView { unknown_fields: u, ..v })),
            Err(e) => Err(e),
        }
    }
}

/// What reading all of `s` into `v` as `MethodOptions` fields gives: the message after, or the error.
/// `depth` and `limit` are the reader's depth and recursion limit, `skip` whether it skips
/// unknown fields, and `eg` the end tag of the group it is in.
pub open spec fn method_options_merged(v: MethodOptionsView, s: Seq<u8>, depth: nat, limit: nat, skip: bool, eg: Option<Tag>) -> ReadResult<MethodOptionsView>
    decreases s.len(),
{
    if s.len() == 0 {
        Ok(v)
    } else {
        match varint_read(s) {
            Err(e) => Err(e),
            Ok((n, w)) => if n < 1 || n > s.len() {
                Err(eof())
            } else {
                match method_options_field_read(v, w as u32, s.skip(n), depth, limit, skip, eg) {
                    Err(e) => Err(e),
                    Ok((m, v2)) => if m < 0 || n + m > s.len() {
                        Err(eof())
                    } else {
                        method_options_merged(v2, s.skip(n + m), depth, limit, skip, eg)
                    },
                }
            },
        }
    }
}

/// Reads a `MethodOptions` from the reader as a length delimited value, merging it into `this`, one
/// level deeper.
fn merge_method_options_delimited(this: &mut MethodOptions, input: &mut CodedReader) -> (r: ReadResult<()>)
    ensures
        match length_delimited_read(old(input).available()) {
            Err(e) => r == Err::<(), ReadError>(e) && same_config(*old(input), *final(input)),
            Ok((m, b)) => if old(input).depth() >= old(input).recursion_limit() {
                r == Err::<(), ReadError>(ReadError::RecursionLimitExceeded) && same_config(*old(input), *final(input))
            } else {
                match method_options_merged(old(this)@, b, old(input).depth() + 1, old(input).recursion_limit(), skips(*old(input)), old(input).end_group_view()) {
                    Ok(y) => r is Ok && final(this)@ == y && final(input).position() == old(input).position() + m
                        && same_state(*old(input), *final(input)),
                    Err(e) => r == Err::<(), ReadError>(e) && same_config(*old(input), *final(input)),
                }
            },
        },
{
    let rem0 = input.remaining();
    let ghost s = input.available();
    let ghost start = *input;
    let length = match input.read_length() {
        Ok(l) => l,
        Err(e) => return Err(e),
    };
    let rem1 = input.remaining();
    let ghost n0 = input.position() - start.position();
    proof {
        lemma_varint_read_len(s);
        assert(input.available() =~= s.skip(n0));
    }
    let previous = match input.push_length(length) {
        Ok(p) => p,
        Err(e) => return Err(e),
    };
    let rem2 = input.remaining();
    let ghost b = s.subrange(n0, n0 + length@);
    proof {
        assert(input.available() =~= b);
        assert(length_delimited_read(s) == Ok::<(int, Seq<u8>), ReadError>((n0 + length@, b)));
    }
    let ghost pushed = *input;
    match input.increment_recursion_count() {
        Ok(()) => {},
        Err(e) => {
            input.pop_length(previous);
            return Err(e);
        },
    }
    let r = this.merge_from(input);
    let rem3 = input.remaining();
    input.decrement_recursion_count();
    input.pop_length(previous);
    r
}

/// The parts an optional `MethodOptions` field with field number `num` is written as: nothing where it
/// is not set, else its tag, its length and its parts.
pub open spec fn method_options_opt_parts(num: u32, o: Option<MethodOptionsView>) -> Seq<(bool, Seq<u8>)> {
    match o {
        Some(y) => entry_parts(num, method_options_parts(y)),
        None => Seq::empty(),
    }
}

/// Adds the size of an optional `MethodOptions` field with field number `num` to the builder.
fn method_options_opt_size(o: &Option<MethodOptions>, b: LengthBuilder, num: FieldNumber) -> (r: Option<LengthBuilder>)
    ensures
        size_added(b@ as int, parts_encodable(method_options_opt_parts(num@, opt_view(*o))), parts_bytes(method_options_opt_parts(num@, opt_view(*o))).len() as int, r),
{
    match o {
        Some(y) => {
            let len = y.calculate_size();
            add_entry_size(b, num, len, Ghost(method_options_parts(y@)))
        },
        None => {
            proof {
                assert(parts_encodable(Seq::<(bool, Seq<u8>)>::empty()));
                assert(parts_bytes(Seq::<(bool, Seq<u8>)>::empty()).len() == 0);
            }
            Some(b)
        },
    }
}

/// Writes an optional `MethodOptions` field with field number `num`: nothing where it is not set, else
/// its tag, its length and its fields.
fn write_method_options_opt(o: &Option<MethodOptions>, output: &mut CodedWriter, num: FieldNumber) -> (r: WriteResult)
    ensures
        (final(output).written(), r) == parts_written(old(output).written(), old(output).capacity(), method_options_opt_parts(num@, opt_view(*o))),
        final(output).capacity() == old(output).capacity(),
        (*final(final(output).target()))@ == (*final(old(output).target()))@,
{
    match o {
        Some(y) => {
            let ghost p = method_options_parts(y@);
            let ghost head = entry_head(num@, p);
            let ghost w0 = output.written();
            let ghost cap = output.capacity();
            proof {
                lemma_parts_written_append(w0, cap, head, p);
                reveal_with_fuel(parts_written, 3);
                assert(head.drop_first().drop_first() =~= Seq::<(bool, Seq<u8>)>::empty());
                lemma_varint_roundtrip(tag_value(num@, WireType::LengthDelimited) as u64);
            }
            match output.write_tag(Tag::new(num, WireType::LengthDelimited)) {
                Ok(()) => {},
                Err(e) => return Err(e),
            }
            let len = match y.calculate_size() {
                Some(len) => len,
                None => return Err(WriteError::ValueTooLarge),
            };
            proof {
                lemma_varint_roundtrip(len@ as u64);
            }
            match output.write_length(len) {
                Ok(()) => {},
                Err(e) => return Err(e),
            }
            y.write_to(output)
        },
        None => Ok(()),
    }
}

impl MethodOptions {
    /// Gets the unknown fields of the message.
    pub fn unknown_fields(&self) -> (r: &UnknownFieldSet)
        ensures
            r@ == self@.unknown_fields,
    {
        &self.unknown_fields
    }

    /// Gets the unknown fields of the message for changing them.
    pub fn unknown_fields_mut(&mut self) -> (r: &mut UnknownFieldSet)
        ensures
            (*r)@ == old(self)@.unknown_fields,
            final(self)@ == (MethodOptionsView { unknown_fields: (*final(r))@, ..old(self)@ }),
    {
        &mut self.unknown_fields
    }

    /// Returns whether the message is initialized: whether all its required fields are set.
    pub fn is_initialized(&self) -> (r: bool)
        ensures
            r,
    {
        if !crate::is_initialized(&self.uninterpreted_option) {
            return false;
        }
        true
    }

    /// Calculates the size of the message as it is written: `None` if a part cannot be
    /// written or the size does not fit in a length.
    #[verifier::spinoff_prover]
    pub fn calculate_size(&self) -> (r: Option<Length>)
        ensures
            opt_length(r) == parts_size(method_options_parts(self@)),
    {
        let ghost v = self@;
        let ghost all = method_options_parts(v);
        let b0 = LengthBuilder::new();
        let ghost d0 = Seq::<(bool, Seq<u8>)>::empty();
        proof {
            reveal(method_options_parts);
            assert(all =~= d0 + all);
        }
        let ghost p1 = opt_field_parts::<raw::Bool>(33u32, v.deprecated);
        let ghost rest1 = opt_field_parts::<raw::Enum<method_options::IdempotencyLevel>>(34u32, v.idempotency_level) + (uninterpreted_option_seq_parts(999u32, v.uninterpreted_option) + (set_parts(v.unknown_fields)));
        proof {
            assert(self@.deprecated == opt_inner_view::<raw::Bool>(self.deprecated));
            assert(all == d0 + (p1 + rest1));
            assert(d0 + (p1 + rest1) =~= d0 + p1 + rest1);
        }
        let r1 = add_opt_field::<raw::Bool>(b0, FieldNumber::new_unchecked(33), &self.deprecated);
        proof {
            lemma_size_chain(0, d0, p1, Some(b0), r1);
            if r1 is None {
                lemma_size_chain(0, d0 + p1, rest1, r1, r1);
            }
        }
        let b1 = match r1 {
            Some(b) => b,
            None => return None,
        };
        let ghost d1 = d0 + p1;
        let ghost p2 = opt_field_parts::<raw::Enum<method_options::IdempotencyLevel>>(34u32, v.idempotency_level);
        let ghost rest2 = uninterpreted_option_seq_parts(999u32, v.uninterpreted_option) + (set_parts(v.unknown_fields));
        proof {
            assert(self@.idempotency_level == opt_inner_view::<raw::Enum<method_options::IdempotencyLevel>>(self.idempotency_level));
            assert(all == d1 + (p2 + rest2));
            assert(d1 + (p2 + rest2) =~= d1 + p2 + rest2);
        }
        let r2 = add_opt_field::<raw::Enum<method_options::IdempotencyLevel>>(b1, FieldNumber::new_unchecked(34), &self.idempotency_level);
        proof {
            lemma_size_chain(0, d1, p2, Some(b1), r2);
            if r2 is None {
                lemma_size_chain(0, d1 + p2, rest2, r2, r2);
            }
        }
        let b2 = match r2 {
            Some(b) => b,
            None => return None,
        };
        let ghost d2 = d1 + p2;
        let ghost p3 = uninterpreted_option_seq_parts(999u32, v.uninterpreted_option);
        let ghost rest3 = set_parts(v.unknown_fields);
        proof {
            assert(all == d2 + (p3 + rest3));
            assert(d2 + (p3 + rest3) =~= d2 + p3 + rest3);
        }
        let r3 = uninterpreted_option_values_size(&self.uninterpreted_option, b2, FieldNumber::new_unchecked(999));
        proof {
            lemma_size_chain(0, d2, p3, Some(b2), r3);
            if r3 is None {
                lemma_size_chain(0, d2 + p3, rest3, r3, r3);
            }
        }
        let b3 = match r3 {
            Some(b) => b,
            None => return None,
        };
        let ghost d3 = d2 + p3;
        let ghost p4 = set_parts(v.unknown_fields);
        let ghost rest4 = Seq::<(bool, Seq<u8>)>::empty();
        proof {
            assert(all == d3 + p4);
            assert(p4 + rest4 =~= p4);
            assert(d3 + (p4 + rest4) =~= d3 + p4 + rest4);
        }
        let r4 = self.unknown_fields.calculate_size(b3);
        proof {
            lemma_size_chain(0, d3, p4, Some(b3), r4);
            if r4 is None {
                lemma_size_chain(0, d3 + p4, rest4, r4, r4);
            }
        }
        let b4 = match r4 {
            Some(b) => b,
            None => return None,
        };
        let ghost d4 = d3 + p4;
        Some(b4.build())
    }

    /// Writes the message to the writer: its fields that are set, in field number order, then
    /// its unknown fields.
    #[verifier::spinoff_prover]
    pub fn write_to(&self, output: &mut CodedWriter) -> (r: WriteResult)
        ensures
            (final(output).written(), r) == parts_written(old(output).written(), old(output).capacity(), method_options_parts(self@)),
            final(output).capacity() == old(output).capacity(),
            (*final(final(output).target()))@ == (*final(old(output).target()))@,
    {
        let ghost v = self@;
        let ghost all = method_options_parts(v);
        let ghost start = output.written();
        let ghost cap = output.capacity();
        let ghost d0 = Seq::<(bool, Seq<u8>)>::empty();
        proof {
            reveal(method_options_parts);
            assert(all =~= d0 + all);
        }
        let ghost p1 = opt_field_parts::<raw::Bool>(33u32, v.deprecated);
        let ghost rest1 = opt_field_parts::<raw::Enum<method_options::IdempotencyLevel>>(34u32, v.idempotency_level) + (uninterpreted_option_seq_parts(999u32, v.uninterpreted_option) + (set_parts(v.unknown_fields)));
        proof {
            assert(self@.deprecated == opt_inner_view::<raw::Bool>(self.deprecated));
            assert(all == d0 + (p1 + rest1));
            assert(d0 + (p1 + rest1) =~= d0 + p1 + rest1);
            lemma_parts_written_append(start, cap, d0, p1);
            lemma_parts_written_append(start, cap, d0 + p1, rest1);
        }
        match write_opt_field::<raw::Bool>(output, FieldNumber::new_unchecked(33), &self.deprecated) {
            Ok(()) => {},
            Err(e) => return Err(e),
        }
        let ghost d1 = d0 + p1;
        let ghost p2 = opt_field_parts::<raw::Enum<method_options::IdempotencyLevel>>(34u32, v.idempotency_level);
        let ghost rest2 = uninterpreted_option_seq_parts(999u32, v.uninterpreted_option) + (set_parts(v.unknown_fields));
        proof {
            assert(self@.idempotency_level == opt_inner_view::<raw::Enum<method_options::IdempotencyLevel>>(self.idempotency_level));
            assert(all == d1 + (p2 + rest2));
            assert(d1 + (p2 + rest2) =~= d1 + p2 + rest2);
            lemma_parts_written_append(start, cap, d1, p2);
            lemma_parts_written_append(start, cap, d1 + p2, rest2);
        }
        match write_opt_field::<raw::Enum<method_options::IdempotencyLevel>>(output, FieldNumber::new_unchecked(34), &self.idempotency_level) {
            Ok(()) => {},
            Err(e) => return Err(e),
        }
        let ghost d2 = d1 + p2;
        let ghost p3 = uninterpreted_option_seq_parts(999u32, v.uninterpreted_option);
        let ghost rest3 = set_parts(v.unknown_fields);
        proof {
            assert(all == d2 + (p3 + rest3));
            assert(d2 + (p3 + rest3) =~= d2 + p3 + rest3);
            lemma_parts_written_append(start, cap, d2, p3);
            lemma_parts_written_append(start, cap, d2 + p3, rest3);
        }
        match write_uninterpreted_option_values(&self.uninterpreted_option, output, FieldNumber::new_unchecked(999)) {
            Ok(()) => {},
            Err(e) => return Err(e),
        }
        let ghost d3 = d2 + p3;
        let ghost p4 = set_parts(v.unknown_fields);
        let ghost rest4 = Seq::<(bool, Seq<u8>)>::empty();
        proof {
            assert(all == d3 + p4);
            assert(p4 + rest4 =~= p4);
            assert(d3 + (p4 + rest4) =~= d3 + p4 + rest4);
            lemma_parts_written_append(start, cap, d3, p4);
            lemma_parts_written_append(start, cap, d3 + p4, rest4);
        }
        match self.unknown_fields.write_to(output) {
            Ok(()) => {},
            Err(e) => return Err(e),
        }
        let ghost d4 = d3 + p4;
        proof {
            assert(all =~= d4 + Seq::<(bool, Seq<u8>)>::empty());
            assert(all == d4);
            lemma_ok_unit(parts_written(start, cap, all).1);
        }
        Ok(())
    }

    /// Reads the value of the field whose tag value `t` was just read into the message.
    #[verifier::spinoff_prover]
    fn merge_field(&mut self, t: u32, input: &mut CodedReader) -> (r: ReadResult<()>)
        ensures
            match method_options_field_read(old(self)@, t, old(input).available(), old(input).depth(), old(input).recursion_limit(), skips(*old(input)), old(input).end_group_view()) {
                Ok((m, v2)) => r is Ok && final(self)@ == v2 && m >= 0 && final(input).position()
                    == old(input).position() + m && same_state(*old(input), *final(input)),
                Err(e) => r == Err::<(), ReadError>(e) && same_config(*old(input), *final(input)),
            },
    {
        let rem0 = input.remaining();
        let ghost rest = input.available();
        if t == 264u32 {
            proof {
                <raw::Bool as Value>::lemma_decoding_len(rest);
            }
            input.set_last_tag(Some(Tag::new(FieldNumber::new_unchecked(33), WireType::Varint)));
            match <raw::Bool as Value>::merge_from(self.deprecated.get_or_insert(false), input) {
                Ok(()) => {},
                Err(e) => return Err(e),
            }
        } else if t == 272u32 {
            proof {
                <raw::Enum<method_options::IdempotencyLevel> as Value>::lemma_decoding_len(rest);
            }
            input.set_last_tag(Some(Tag::new(FieldNumber::new_unchecked(34), WireType::Varint)));
            match <raw::Enum<method_options::IdempotencyLevel> as Value>::merge_from(self.idempotency_level.get_or_insert(IdempotencyLevel(0)), input) {
                Ok(()) => {},
                Err(e) => return Err(e),
            }
        } else if t == 7994u32 {
            proof {
                lemma_length_delimited_read_len(rest);
            }
            input.set_last_tag(Some(Tag::new(FieldNumber::new_unchecked(999), WireType::LengthDelimited)));
            let mut y = UninterpretedOption::default();
            match merge_uninterpreted_option_delimited(&mut y, input) {
                Ok(()) => {},
                Err(e) => return Err(e),
            }
            let ghost old_values = self.uninterpreted_option@;
            self.uninterpreted_option.push(y);
            proof {
                assert(self.uninterpreted_option@.subrange(0, self.uninterpreted_option@.len() - 1) =~= old_values);
            }
        } else {
            let tag = match Tag::try_from(t) {
                Ok(tag) => tag,
                Err(_) => return Err(ReadError::InvalidTag(t)),
            };
            input.set_last_tag(Some(tag));
            match self.unknown_fields.try_add_field_from(input) {
                Ok(TryRead::Consumed) => {},
                Ok(TryRead::Yielded) => match input.skip() {
                    Ok(()) => {},
                    Err(e) => return Err(e),
                },
                Err(e) => return Err(e),
            }
        }
        let rem1 = input.remaining();
        Ok(())
    }

    /// Merges the message with fields read from the reader, up to its limit. Scalar fields
    /// read replace those set, message fields are merged, repeated fields are added to,
    /// and unknown fields are stored or skipped as the reader says. On an error the message
    /// may hold some of the fields read before it.
    #[verifier::spinoff_prover]
    #[verifier::rlimit(50)]
    pub fn merge_from(&mut self, input: &mut CodedReader) -> (r: ReadResult<()>)
        ensures
            merge_outcome(method_options_merged(old(self)@, old(input).available(), old(input).depth(), old(input).recursion_limit(), skips(*old(input)), old(input).end_group_view()), final(self)@, *old(input), *final(input), r),
    {
        let rem0 = input.remaining();
        let ghost start = *input;
        let ghost total = method_options_merged(self@, input.available(), input.depth(), input.recursion_limit(), skips(*input), input.end_group_view());
        loop
            invariant
                start == *old(input),
                same_state(start, *input),
                0 <= start.position() <= input.position(),
                input.limit_end() <= input.input().len(),
                total == method_options_merged(old(self)@, start.available(), start.depth(), start.recursion_limit(), skips(start), start.end_group_view()),
                total == method_options_merged(self@, input.available(), start.depth(), start.recursion_limit(), skips(start), start.end_group_view()),
            decreases input.available().len(),
        {
            let ghost s = input.available();
            let ghost before = *input;
            let ghost v = self@;
            let t = match input.read_field() {
                Ok(Some(t)) => t,
                Ok(None) => return Ok(()),
                Err(e) => return Err(e),
            };
            let rem1 = input.remaining();
            let ghost n = input.position() - before.position();
            proof {
                lemma_varint_read_len(s);
                assert(input.available() =~= s.skip(n));
            }
            let ghost mid = *input;
            match self.merge_field(t, input) {
                Ok(()) => {},
                Err(e) => return Err(e),
            }
            let rem2 = input.remaining();
            proof {
                let m = input.position() - mid.position();
                assert(input.available() =~= s.skip(n + m));
            }
        }
    }
}

impl crate::Message for MethodOptions {
    open spec fn merged(v: MethodOptionsView, s: Seq<u8>, depth: nat, limit: nat, skip: bool, eg: Option<Tag>) -> ReadResult<MethodOptionsView> {
        method_options_merged(v, s, depth, limit, skip, eg)
    }

    open spec fn parts(v: MethodOptionsView) -> Seq<(bool, Seq<u8>)> {
        method_options_parts(v)
    }

    open spec fn initialized(v: MethodOptionsView) -> bool {
        true
    }

    open spec fn unknown_fields_of(v: MethodOptionsView) -> Seq<(u32, Seq<FieldValue>)> {
        v.unknown_fields
    }

    open spec fn with_unknown_fields(v: MethodOptionsView, u: Seq<(u32, Seq<FieldValue>)>) -> MethodOptionsView {
        MethodOptionsView { unknown_fields: u, ..v }
    }

    fn merge_from(&mut self, input: &mut CodedReader) -> (r: ReadResult<()>) {
        MethodOptions::merge_from(self, input)
    }

    fn calculate_size(&self) -> (r: Option<Length>) {
        MethodOptions::calculate_size(self)
    }

    fn write_to(&self, output: &mut CodedWriter) -> (r: WriteResult) {
        MethodOptions::write_to(self, output)
    }

    fn is_initialized(&self) -> (r: bool) {
        MethodOptions::is_initialized(self)
    }

    fn unknown_fields(&self) -> (r: &UnknownFieldSet) {
        MethodOptions::unknown_fields(self)
    }

    fn unknown_fields_mut(&mut self) -> (r: &mut UnknownFieldSet) {
        MethodOptions::unknown_fields_mut(self)
    }
}

impl DebugMessage for MethodOptions {
    open spec fn spec_full_name() -> Seq<char> {
        "google.protobuf.MethodOptions"@
    }

    open spec fn spec_name() -> Seq<char> {
        "MethodOptions"@
    }

    fn full_name() -> (r: &'static str) {
        "google.protobuf.MethodOptions"
    }

    fn name() -> (r: &'static str) {
        "MethodOptions"
    }
}

/// Whether `t` is the tag of a field a `MethodOptions` reads.
pub open spec fn method_options_known_tag(t: u32) -> bool {
    t == 264u32 || t == 272u32 || t == 7994u32
}

/// Whether a `MethodOptions` is read back as it is written, at nesting depth `depth` of a reader with
/// recursion limit `limit`: its messages are read back as written one level deeper, within
/// the limit; and its unknown fields are read back as written, none with the tag of one of
/// its fields.
pub open spec fn method_options_roundtrips(v: MethodOptionsView, depth: nat, limit: nat) -> bool
{
    &&& (v.uninterpreted_option.len() > 0 ==> depth < limit)
    &&& forall|i: int| 0 <= i < v.uninterpreted_option.len() ==> uninterpreted_option_roundtrips(#[trigger] v.uninterpreted_option[i], depth + 1, limit)
    &&& set_readable(v.unknown_fields)
    &&& forall|k: int| 0 <= k < set_pairs(v.unknown_fields).len() ==> !method_options_known_tag(tag_value(
        #[trigger] set_pairs(v.unknown_fields)[k].0,
        field_value_wire_type(set_pairs(v.unknown_fields)[k].1),
    ))
}

/// Reading a `MethodOptions` field whose tag is read from the front of `s` and whose value is read after
/// it continues with the rest of `s`.
proof fn lemma_method_options_step(v: MethodOptionsView, s: Seq<u8>, k: int, t: u32, m: int, v2: MethodOptionsView, depth: nat, limit: nat)
    requires
        varint_read(s) == Ok::<(int, u64), ReadError>((k, t as u64)),
        1 <= k <= s.len(),
        method_options_field_read(v, t, s.skip(k), depth, limit, false, None) == Ok::<(int, MethodOptionsView), ReadError>((m, v2)),
        0 <= m,
        k + m <= s.len(),
    ensures
        method_options_merged(v, s, depth, limit, false, None) == method_options_merged(v2, s.skip(k + m), depth, limit, false, None),
{
    assert((t as u64) as u32 == t);
}

/// Reading the entries of `UninterpretedOption` values written as field `uninterpreted_option` of a `MethodOptions` adds the values.
#[verifier::spinoff_prover]
#[verifier::rlimit(60)]
proof fn lemma_method_options_read_uninterpreted_option(v: MethodOptionsView, ys: Seq<UninterpretedOptionView>, rest: Seq<u8>, depth: nat, limit: nat)
    requires
        parts_encodable(uninterpreted_option_seq_parts(999u32, ys)),
        ys.len() > 0 ==> depth < limit,
        forall|i: int| 0 <= i < ys.len() ==> uninterpreted_option_roundtrips(#[trigger] ys[i], depth + 1, limit),
    ensures
        method_options_merged(v, parts_bytes(uninterpreted_option_seq_parts(999u32, ys)) + rest, depth, limit, false, None) == method_options_merged(
            MethodOptionsView { uninterpreted_option: v.uninterpreted_option + ys, ..v },
            rest,
            depth, limit, false, None,
        ),
    decreases ys.len(),
{
    if ys.len() == 0 {
        assert(parts_bytes(uninterpreted_option_seq_parts(999u32, ys)) + rest =~= rest);
        assert(v.uninterpreted_option + ys =~= v.uninterpreted_option);
    } else {
        let y = ys[0];
        let tail = ys.drop_first();
        assert forall|i: int| 0 <= i < tail.len() implies uninterpreted_option_roundtrips(#[trigger] tail[i], depth + 1, limit) by {
            assert(tail[i] == ys[i + 1]);
        }
        lemma_uninterpreted_option_seq_parts_front(999u32, ys);
        let ep = entry_parts(999u32, uninterpreted_option_parts(y));
        lemma_parts_encodable_two(ep, uninterpreted_option_seq_parts(999u32, tail));
        lemma_parts_bytes_append(ep, uninterpreted_option_seq_parts(999u32, tail));
        assert(ep[1].0);
        let after = parts_bytes(uninterpreted_option_seq_parts(999u32, tail)) + rest;
        let s = parts_bytes(uninterpreted_option_seq_parts(999u32, ys)) + rest;
        assert(s =~= parts_bytes(ep) + after);
        lemma_entry_bytes_read(999u32, uninterpreted_option_parts(y), after);
        lemma_tag_value(999u32, WireType::LengthDelimited);
        lemma_uninterpreted_option_roundtrip(y, depth + 1, limit);
        let hl = parts_bytes(ep).len() as int;
        let k = varint_len(7994u64) as int;
        let v2 = MethodOptionsView { uninterpreted_option: v.uninterpreted_option.push(y), ..v };
        lemma_method_options_step(v, s, k, 7994u32, hl - k, v2, depth, limit);
        lemma_method_options_read_uninterpreted_option(v2, tail, rest, depth, limit);
        assert(v.uninterpreted_option.push(y) + tail =~= v.uninterpreted_option + ys);
    }
}

/// Reading the field `deprecated` of a `MethodOptions` written from `o` sets it to `o`, whatever it held; nothing
/// is written, and nothing changes, for `None`.
proof fn lemma_method_options_read_deprecated(d: MethodOptionsView, o: Option<bool>, rest: Seq<u8>, depth: nat, limit: nat)
    requires
        parts_encodable(opt_field_parts::<raw::Bool>(33u32, o)),
    ensures
        method_options_merged(d, parts_bytes(opt_field_parts::<raw::Bool>(33u32, o)) + rest, depth, limit, false, None) == method_options_merged(if o is Some { MethodOptionsView { deprecated: o, ..d } } else { d }, rest, depth, limit, false, None),
{
    match o {
        None => {
            assert(parts_bytes(opt_field_parts::<raw::Bool>(33u32, o)) + rest =~= rest);
        },
        Some(x) => {
            let p = field_parts::<raw::Bool>(33u32, x);
            assert(p[1].0);
            let s = parts_bytes(p) + rest;
            lemma_field_bytes_read::<raw::Bool>(33u32, x, rest);
            lemma_tag_value(33u32, WireType::Varint);
            let hl = parts_bytes(p).len() as int;
            let k = varint_len(264u64) as int;
            let v2 = MethodOptionsView { deprecated: Some(x), ..d };
            lemma_method_options_step(d, s, k, 264u32, hl - k, v2, depth, limit);
        },
    }
}

/// Reading the field `idempotency_level` of a `MethodOptions` written from `o` sets it to `o`, whatever it held; nothing
/// is written, and nothing changes, for `None`.
proof fn lemma_method_options_read_idempotency_level(d: MethodOptionsView, o: Option<i32>, rest: Seq<u8>, depth: nat, limit: nat)
    requires
        parts_encodable(opt_field_parts::<raw::Enum<method_options::IdempotencyLevel>>(34u32, o)),
    ensures
        method_options_merged(d, parts_bytes(opt_field_parts::<raw::Enum<method_options::IdempotencyLevel>>(34u32, o)) + rest, depth, limit, false, None) == method_options_merged(if o is Some { MethodOptionsView { idempotency_level: o, ..d } } else { d }, rest, depth, limit, false, None),
{
    match o {
        None => {
            assert(parts_bytes(opt_field_parts::<raw::Enum<method_options::IdempotencyLevel>>(34u32, o)) + rest =~= rest);
        },
        Some(x) => {
            let p = field_parts::<raw::Enum<method_options::IdempotencyLevel>>(34u32, x);
            assert(p[1].0);
            let s = parts_bytes(p) + rest;
            lemma_field_bytes_read::<raw::Enum<method_options::IdempotencyLevel>>(34u32, x, rest);
            lemma_tag_value(34u32, WireType::Varint);
            let hl = parts_bytes(p).len() as int;
            let k = varint_len(272u64) as int;
            let v2 = MethodOptionsView { idempotency_level: Some(x), ..d };
            lemma_method_options_step(d, s, k, 272u32, hl - k, v2, depth, limit);
        },
    }
}

/// Reading unknown field values written one after the other into a `MethodOptions`, none with the tag
/// of one of its fields, adds them to its unknown fields.
proof fn lemma_method_options_read_unknown(v: MethodOptionsView, ps: Seq<(u32, FieldValue)>, rest: Seq<u8>, depth: nat, limit: nat)
    requires
        forall|k: int| 0 <= k < ps.len() ==> value_readable(#[trigger] ps[k].0, ps[k].1) && !method_options_known_tag(
            tag_value(ps[k].0, field_value_wire_type(ps[k].1)),
        ),
    ensures
        method_options_merged(v, parts_bytes(pairs_parts(ps)) + rest, depth, limit, false, None) == method_options_merged(
            MethodOptionsView { unknown_fields: push_pairs(v.unknown_fields, ps), ..v },
            rest,
            depth, limit, false, None,
        ),
    decreases ps.len(),
{
    if ps.len() == 0 {
        assert(parts_bytes(pairs_parts(ps)) + rest =~= rest);
    } else {
        let n = ps[0].0;
        let fv = ps[0].1;
        let tail = ps.drop_first();
        assert forall|k: int| 0 <= k < tail.len() implies value_readable(#[trigger] tail[k].0, tail[k].1) && !method_options_known_tag(
            tag_value(tail[k].0, field_value_wire_type(tail[k].1)),
        ) by {
            assert(tail[k] == ps[k + 1]);
        }
        assert(value_readable(ps[0].0, ps[0].1));
        lemma_parts_bytes_append(field_value_parts(n, fv), pairs_parts(tail));
        let after = parts_bytes(pairs_parts(tail)) + rest;
        let s = parts_bytes(pairs_parts(ps)) + rest;
        assert(s =~= parts_bytes(field_value_parts(n, fv)) + after);
        lemma_read_value_bytes(n, fv, after);
        let t = tag_value(n, field_value_wire_type(fv));
        let hl = parts_bytes(field_value_parts(n, fv)).len() as int;
        let k = varint_len(t as u64) as int;
        let v2 = MethodOptionsView { unknown_fields: view_push(v.unknown_fields, n, fv), ..v };
        lemma_method_options_step(v, s, k, t, hl - k, v2, depth, limit);
        lemma_method_options_read_unknown(v2, tail, rest, depth, limit);
    }
}

/// The writability of the parts of a `MethodOptions` is that of each field's parts.
proof fn lemma_method_options_parts_encodable(v: MethodOptionsView)
    ensures
        parts_encodable(method_options_parts(v)) == (parts_encodable(opt_field_parts::<raw::Bool>(33u32, v.deprecated)) && parts_encodable(opt_field_parts::<raw::Enum<method_options::IdempotencyLevel>>(34u32, v.idempotency_level)) && parts_encodable(uninterpreted_option_seq_parts(999u32, v.uninterpreted_option)) && parts_encodable(set_parts(v.unknown_fields))),
{
    reveal(method_options_parts);
    let p0 = opt_field_parts::<raw::Bool>(33u32, v.deprecated);
    let p1 = opt_field_parts::<raw::Enum<method_options::IdempotencyLevel>>(34u32, v.idempotency_level);
    let p2 = uninterpreted_option_seq_parts(999u32, v.uninterpreted_option);
    let p3 = set_parts(v.unknown_fields);
    let q3 = p3;
    let q2 = p2 + q3;
    lemma_parts_encodable_two(p2, q3);
    let q1 = p1 + q2;
    lemma_parts_encodable_two(p1, q2);
    let q0 = p0 + q1;
    lemma_parts_encodable_two(p0, q1);
    assert(method_options_parts(v) == q0);
}

/// The bytes of the parts of a `MethodOptions` are those of each field's parts, one after the other.
proof fn lemma_method_options_parts_bytes(v: MethodOptionsView)
    ensures
        parts_bytes(method_options_parts(v)) == parts_bytes(opt_field_parts::<raw::Bool>(33u32, v.deprecated)) + (parts_bytes(opt_field_parts::<raw::Enum<method_options::IdempotencyLevel>>(34u32, v.idempotency_level)) + (parts_bytes(uninterpreted_option_seq_parts(999u32, v.uninterpreted_option)) + parts_bytes(set_parts(v.unknown_fields)))),
{
    reveal(method_options_parts);
    let p0 = opt_field_parts::<raw::Bool>(33u32, v.deprecated);
    let p1 = opt_field_parts::<raw::Enum<method_options::IdempotencyLevel>>(34u32, v.idempotency_level);
    let p2 = uninterpreted_option_seq_parts(999u32, v.uninterpreted_option);
    let p3 = set_parts(v.unknown_fields);
    let q3 = p3;
    let q2 = p2 + q3;
    lemma_parts_bytes_append(p2, q3);
    let q1 = p1 + q2;
    lemma_parts_bytes_append(p1, q2);
    let q0 = p0 + q1;
    lemma_parts_bytes_append(p0, q1);
    assert(method_options_parts(v) == q0);
}

/// The message a `MethodOptions` `d` becomes when `v` is merged into it: each field `v` holds once
/// replaces the one `d` holds, the values of each repeated field of `v` follow those of `d`,
/// and the unknown fields of `v` are added to those of `d`, field number by field number.
pub open spec fn method_options_merge_view(d: MethodOptionsView, v: MethodOptionsView) -> MethodOptionsView {
    MethodOptionsView { deprecated: newer_or(v.deprecated, d.deprecated), idempotency_level: newer_or(v.idempotency_level, d.idempotency_level), uninterpreted_option: d.uninterpreted_option + v.uninterpreted_option, unknown_fields: view_merge(d.unknown_fields, v.unknown_fields) }
}

/// Reading the bytes of the parts of a `MethodOptions` `v`, field by field, into `d` merges `v` into `d`.
#[verifier::spinoff_prover]
#[verifier::rlimit(60)]
proof fn lemma_method_options_merge_all(d: MethodOptionsView, v: MethodOptionsView, depth: nat, limit: nat)
    requires
        parts_encodable(opt_field_parts::<raw::Bool>(33u32, v.deprecated)),
        parts_encodable(opt_field_parts::<raw::Enum<method_options::IdempotencyLevel>>(34u32, v.idempotency_level)),
        parts_encodable(uninterpreted_option_seq_parts(999u32, v.uninterpreted_option)),
        method_options_roundtrips(v, depth, limit),
        parts_bytes(method_options_parts(v)) == parts_bytes(opt_field_parts::<raw::Bool>(33u32, v.deprecated)) + (parts_bytes(opt_field_parts::<raw::Enum<method_options::IdempotencyLevel>>(34u32, v.idempotency_level)) + (parts_bytes(uninterpreted_option_seq_parts(999u32, v.uninterpreted_option)) + parts_bytes(set_parts(v.unknown_fields)))),
    ensures
        method_options_merged(d, parts_bytes(method_options_parts(v)), depth, limit, false, None) == Ok::<MethodOptionsView, ReadError>(method_options_merge_view(d, v)),
{
    let p0 = opt_field_parts::<raw::Bool>(33u32, v.deprecated);
    let p1 = opt_field_parts::<raw::Enum<method_options::IdempotencyLevel>>(34u32, v.idempotency_level);
    let p2 = uninterpreted_option_seq_parts(999u32, v.uninterpreted_option);
    let p3 = set_parts(v.unknown_fields);
    let b0 = parts_bytes(p0);
    let b1 = parts_bytes(p1);
    let b2 = parts_bytes(p2);
    let b3 = parts_bytes(p3);
    let r3 = b3;
    let r2 = b2 + r3;
    let r1 = b1 + r2;
    let r0 = b0 + r1;
    let d0 = d;
    let d1 = MethodOptionsView { deprecated: newer_or(v.deprecated, d.deprecated), ..d0 };
    assert(method_options_merged(d0, r0, depth, limit, false, None) == method_options_merged(d1, r1, depth, limit, false, None)) by {
        lemma_method_options_read_deprecated(d0, v.deprecated, r1, depth, limit);
        assert((if v.deprecated is Some { MethodOptionsView { deprecated: v.deprecated, ..d0 } } else { d0 }) == d1);
    }
    let d2 = MethodOptionsView { idempotency_level: newer_or(v.idempotency_level, d.idempotency_level), ..d1 };
    assert(method_options_merged(d1, r1, depth, limit, false, None) == method_options_merged(d2, r2, depth, limit, false, None)) by {
        lemma_method_options_read_idempotency_level(d1, v.idempotency_level, r2, depth, limit);
        assert((if v.idempotency_level is Some { MethodOptionsView { idempotency_level: v.idempotency_level, ..d1 } } else { d1 }) == d2);
    }
    let d3 = MethodOptionsView { uninterpreted_option: d.uninterpreted_option + v.uninterpreted_option, ..d2 };
    assert(method_options_merged(d2, r2, depth, limit, false, None) == method_options_merged(d3, r3, depth, limit, false, None)) by {
        lemma_method_options_read_uninterpreted_option(d2, v.uninterpreted_option, r3, depth, limit);
        assert(MethodOptionsView { uninterpreted_option: d2.uninterpreted_option + v.uninterpreted_option, ..d2 } == d3);
    }
    let ps = set_pairs(v.unknown_fields);
    assert(method_options_merged(d3, r3, depth, limit, false, None) == Ok::<MethodOptionsView, ReadError>(method_options_merge_view(d, v))) by {
        lemma_set_pairs(v.unknown_fields, d.unknown_fields);
        lemma_entries_readable(v.unknown_fields);
        assert forall|k: int| 0 <= k < ps.len() implies value_readable(#[trigger] ps[k].0, ps[k].1) && !method_options_known_tag(
            tag_value(ps[k].0, field_value_wire_type(ps[k].1)),
        ) by {
            assert(!method_options_known_tag(tag_value(set_pairs(v.unknown_fields)[k].0, field_value_wire_type(set_pairs(v.unknown_fields)[k].1))));
        }
        lemma_method_options_read_unknown(d3, ps, Seq::empty(), depth, limit);
        assert(b3 + Seq::<u8>::empty() =~= b3);
        let dl = MethodOptionsView { unknown_fields: push_pairs(d3.unknown_fields, ps), ..d3 };
        assert(dl == method_options_merge_view(d, v));
    }
}

/// Reading the bytes of the parts of a `MethodOptions`, field by field, gives the message back.
proof fn lemma_method_options_read_all(v: MethodOptionsView, depth: nat, limit: nat)
    requires
        parts_encodable(opt_field_parts::<raw::Bool>(33u32, v.deprecated)),
        parts_encodable(opt_field_parts::<raw::Enum<method_options::IdempotencyLevel>>(34u32, v.idempotency_level)),
        parts_encodable(uninterpreted_option_seq_parts(999u32, v.uninterpreted_option)),
        method_options_roundtrips(v, depth, limit),
        parts_bytes(method_options_parts(v)) == parts_bytes(opt_field_parts::<raw::Bool>(33u32, v.deprecated)) + (parts_bytes(opt_field_parts::<raw::Enum<method_options::IdempotencyLevel>>(34u32, v.idempotency_level)) + (parts_bytes(uninterpreted_option_seq_parts(999u32, v.uninterpreted_option)) + parts_bytes(set_parts(v.unknown_fields)))),
    ensures
        method_options_merged(method_options_default(), parts_bytes(method_options_parts(v)), depth, limit, false, None) == Ok::<MethodOptionsView, ReadError>(v),
{
    lemma_method_options_merge_all(method_options_default(), v, depth, limit);
    lemma_entries_readable(v.unknown_fields);
    lemma_merge_into_empty(v.unknown_fields);
    assert(Seq::empty() + v.uninterpreted_option =~= v.uninterpreted_option);
    assert(method_options_merge_view(method_options_default(), v) == v);
}

/// Merging what a `MethodOptions` `v` writes into a message `d` merges `v` into `d`: each field `v`
/// holds replaces the one `d` holds, repeated values follow those `d` holds, and unknown fields
/// are added to those of `d`, where `d` holds none of the message fields `v` holds (those are
/// merged into each other), at nesting depth `depth` of a reader with recursion limit `limit`
/// that keeps unknown fields, outside any group, where `v` is read back as written.
pub proof fn lemma_method_options_merge_written(d: MethodOptionsView, v: MethodOptionsView, depth: nat, limit: nat)
    requires
        parts_encodable(method_options_parts(v)),
        method_options_roundtrips(v, depth, limit),
    ensures
        method_options_merged(d, parts_bytes(method_options_parts(v)), depth, limit, false, None) == Ok::<MethodOptionsView, ReadError>(method_options_merge_view(d, v)),
{
    lemma_method_options_parts_encodable(v);
    lemma_method_options_parts_bytes(v);
    lemma_method_options_merge_all(d, v, depth, limit);
}

/// A `MethodOptions` is read back as it is written: merging the bytes of its parts into a default
/// message, at nesting depth `depth` of a reader with recursion limit `limit` that keeps
/// unknown fields, outside any group, gives the message back, where it is read back as written.
pub proof fn lemma_method_options_roundtrip(v: MethodOptionsView, depth: nat, limit: nat)
    requires
        parts_encodable(method_options_parts(v)),
        method_options_roundtrips(v, depth, limit),
    ensures
        method_options_merged(method_options_default(), parts_bytes(method_options_parts(v)), depth, limit, false, None) == Ok::<MethodOptionsView, ReadError>(v),
{
    lemma_method_options_parts_encodable(v);
    lemma_method_options_parts_bytes(v);
    lemma_method_options_read_all(v, depth, limit);
}

/// The `UninterpretedOption` message of `descriptor.proto`.
#[derive(Clone, Debug)]
pub struct UninterpretedOption {
    name: RepeatedField<NamePart>,
    identifier_value: Option<String>,
    positive_int_value: Option<u64>,
    negative_int_value: Option<i64>,
    double_value: Option<u64>,
    string_value: Option<Vec<u8>>,
    aggregate_value: Option<String>,
    unknown_fields: UnknownFieldSet,
}

/// The view of a `UninterpretedOption`: its fields, and its unknown fields.
pub struct UninterpretedOptionView {
    /// The `name` field.
    pub name: Seq<NamePartView>,
    /// The `identifier_value` field.
    pub identifier_value: Option<Seq<char>>,
    /// The `positive_int_value` field.
    pub positive_int_value: Option<u64>,
    /// The `negative_int_value` field.
    pub negative_int_value: Option<i64>,
    /// The `double_value` field.
    pub double_value: Option<u64>,
    /// The `string_value` field.
    pub string_value: Option<Seq<u8>>,
    /// The `aggregate_value` field.
    pub aggregate_value: Option<Seq<char>>,
    /// The unknown fields.
    pub unknown_fields: Seq<(u32, Seq<FieldValue>)>,
}

/// The view of a `UninterpretedOption` value.
pub closed spec fn uninterpreted_option_view(m: UninterpretedOption) -> UninterpretedOptionView
{
    UninterpretedOptionView {
        name: name_part_seq_view(m.name@),
        identifier_value: opt_view(m.identifier_value),
        positive_int_value: m.positive_int_value,
        negative_int_value: m.negative_int_value,
        double_value: m.double_value,
        string_value: opt_view(m.string_value),
        aggregate_value: opt_view(m.aggregate_value),
        unknown_fields: m.unknown_fields@,
    }
}

/// The views of a run of `UninterpretedOption` values.
pub closed spec fn uninterpreted_option_seq_view(s: Seq<UninterpretedOption>) -> Seq<UninterpretedOptionView>
    decreases s,
{
    if s.len() == 0 {
        Seq::empty()
    } else {
        uninterpreted_option_seq_view(s.subrange(0, s.len() - 1)).push(uninterpreted_option_view(s[s.len() - 1]))
    }
}

/// The view of a `UninterpretedOption` with no field set.
pub open spec fn uninterpreted_option_default() -> UninterpretedOptionView {
    UninterpretedOptionView {
        name: Seq::empty(),
        identifier_value: None,
        positive_int_value: None,
        negative_int_value: None,
        double_value: None,
        string_value: None,
        aggregate_value: None,
        unknown_fields: Seq::empty(),
    }
}

impl View for UninterpretedOption {
    type V = UninterpretedOptionView;

    open spec fn view(&self) -> UninterpretedOptionView {
        uninterpreted_option_view(*self)
    }
}

impl Default for UninterpretedOption {
    /// A message with no field set.
    fn default() -> (r: UninterpretedOption)
        ensures
            r@ == uninterpreted_option_default(),
    {
        let r = UninterpretedOption {
            name: Vec::new(),
            identifier_value: None,
            positive_int_value: None,
            negative_int_value: None,
            double_value: None,
            string_value: None,
            aggregate_value: None,
            unknown_fields: UnknownFieldSet::new(),
        };
        proof {
            assert(name_part_seq_view(r.name@) =~= Seq::empty());
            assert(r@ =~= uninterpreted_option_default());
        }
        r
    }
}

impl UninterpretedOption {
    /// Gets the values of the `name` field.
    pub fn name(&self) -> (r: &RepeatedField<NamePart>)
        ensures
            name_part_seq_view(r@) == self@.name,
    {
        &self.name
    }

    /// Gets the values of the `name` field for changing them.
    pub fn name_mut(&mut self) -> (r: &mut RepeatedField<NamePart>)
        ensures
            name_part_seq_view((*r)@) == old(self)@.name,
            final(self)@ == (UninterpretedOptionView { name: name_part_seq_view((*final(r))@), ..old(self)@ }),
    {
        &mut self.name
    }

    /// Gets the `identifier_value` field, or its default, the empty string.
    pub fn identifier_value(&self) -> (r: &str)
        ensures
            r@ == text_or_empty(self@.identifier_value),
    {
        proof {
            reveal_strlit("");
        }
        match &self.identifier_value {
            Some(s) => s.as_str(),
            None => "",
        }
    }

    /// Gets the `identifier_value` field if it is set.
    pub fn identifier_value_option(&self) -> (r: Option<&String>)
        ensures
            opt_ref_view(r) == self@.identifier_value,
    {
        self.identifier_value.as_ref()
    }

    /// Gets the `identifier_value` field for changing it, setting it to its type's default first if it
    /// is not set.
    pub fn identifier_value_mut(&mut self) -> (r: &mut String)
        ensures
            (*r)@ == old(self)@.identifier_value.unwrap_or(Seq::<char>::empty()),
            final(self)@ == (UninterpretedOptionView { identifier_value: Some((*final(r))@), ..old(self)@ }),
    {
        self.identifier_value.get_or_insert(String::new())
    }

    /// Returns whether the `identifier_value` field is set.
    pub fn has_identifier_value(&self) -> (r: bool)
        ensures
            r == self@.identifier_value is Some,
    {
        self.identifier_value.is_some()
    }

    /// Sets the `identifier_value` field.
    pub fn set_identifier_value(&mut self, value: String)
        ensures
            final(self)@ == (UninterpretedOptionView { identifier_value: Some(value@), ..old(self)@ }),
    {
        self.identifier_value = Some(value);
    }

    /// Takes the `identifier_value` field out, leaving it unset.
    pub fn take_identifier_value(&mut self) -> (r: Option<String>)
        ensures
            opt_view(r) == old(self)@.identifier_value,
            final(self)@ == (UninterpretedOptionView { identifier_value: None, ..old(self)@ }),
    {
        self.identifier_value.take()
    }

    /// Clears the `identifier_value` field, leaving it unset.
    pub fn clear_identifier_value(&mut self)
        ensures
            final(self)@ == (UninterpretedOptionView { identifier_value: None, ..old(self)@ }),
    {
        self.identifier_value = None;
    }

    /// Gets the `positive_int_value` field, or its default, `0`.
    pub fn positive_int_value(&self) -> (r: u64)
        ensures
            r == self@.positive_int_value.unwrap_or(0u64),
    {
        match self.positive_int_value {
            Some(v) => v,
            None => 0u64,
        }
    }

    /// Gets the `positive_int_value` field if it is set.
    pub fn positive_int_value_option(&self) -> (r: Option<&u64>)
        ensures
            opt_ref_view(r) == self@.positive_int_value,
    {
        self.positive_int_value.as_ref()
    }

    /// Gets the `positive_int_value` field for changing it, setting it to its type's default first if it
    /// is not set.
    pub fn positive_int_value_mut(&mut self) -> (r: &mut u64)
        ensures
            (*r)@ == old(self)@.positive_int_value.unwrap_or(0u64),
            final(self)@ == (UninterpretedOptionView { positive_int_value: Some((*final(r))@), ..old(self)@ }),
    {
        self.positive_int_value.get_or_insert(0u64)
    }

    /// Returns whether the `positive_int_value` field is set.
    pub fn has_positive_int_value(&self) -> (r: bool)
        ensures
            r == self@.positive_int_value is Some,
    {
        self.positive_int_value.is_some()
    }

    /// Sets the `positive_int_value` field.
    pub fn set_positive_int_value(&mut self, value: u64)
        ensures
            final(self)@ == (UninterpretedOptionView { positive_int_value: Some(value@), ..old(self)@ }),
    {
        self.positive_int_value = Some(value);
    }

    /// Takes the `positive_int_value` field out, leaving it unset.
    pub fn take_positive_int_value(&mut self) -> (r: Option<u64>)
        ensures
            opt_view(r) == old(self)@.positive_int_value,
            final(self)@ == (UninterpretedOptionView { positive_int_value: None, ..old(self)@ }),
    {
        self.positive_int_value.take()
    }

    /// Clears the `positive_int_value` field, leaving it unset.
    pub fn clear_positive_int_value(&mut self)
        ensures
            final(self)@ == (UninterpretedOptionView { positive_int_value: None, ..old(self)@ }),
    {
        self.positive_int_value = None;
    }

    /// Gets the `negative_int_value` field, or its default, `0`.
    pub fn negative_int_value(&self) -> (r: i64)
        ensures
            r == self@.negative_int_value.unwrap_or(0i64),
    {
        match self.negative_int_value {
            Some(v) => v,
            None => 0i64,
        }
    }

    /// Gets the `negative_int_value` field if it is set.
    pub fn negative_int_value_option(&self) -> (r: Option<&i64>)
        ensures
            opt_ref_view(r) == self@.negative_int_value,
    {
        self.negative_int_value.as_ref()
    }

    /// Gets the `negative_int_value` field for changing it, setting it to its type's default first if it
    /// is not set.
    pub fn negative_int_value_mut(&mut self) -> (r: &mut i64)
        ensures
            (*r)@ == old(self)@.negative_int_value.unwrap_or(0i64),
            final(self)@ == (UninterpretedOptionView { negative_int_value: Some((*final(r))@), ..old(self)@ }),
    {
        self.negative_int_value.get_or_insert(0i64)
    }

    /// Returns whether the `negative_int_value` field is set.
    pub fn has_negative_int_value(&self) -> (r: bool)
        ensures
            r == self@.negative_int_value is Some,
    {
        self.negative_int_value.is_some()
    }

    /// Sets the `negative_int_value` field.
    pub fn set_negative_int_value(&mut self, value: i64)
        ensures
            final(self)@ == (UninterpretedOptionView { negative_int_value: Some(value@), ..old(self)@ }),
    {
        self.negative_int_value = Some(value);
    }

    /// Takes the `negative_int_value` field out, leaving it unset.
    pub fn take_negative_int_value(&mut self) -> (r: Option<i64>)
        ensures
            opt_view(r) == old(self)@.negative_int_value,
            final(self)@ == (UninterpretedOptionView { negative_int_value: None, ..old(self)@ }),
    {
        self.negative_int_value.take()
    }

    /// Clears the `negative_int_value` field, leaving it unset.
    pub fn clear_negative_int_value(&mut self)
        ensures
            final(self)@ == (UninterpretedOptionView { negative_int_value: None, ..old(self)@ }),
    {
        self.negative_int_value = None;
    }

    /// Returns whether the `double_value` field is set.
    pub fn has_double_value(&self) -> (r: bool)
        ensures
            r == self@.double_value is Some,
    {
        self.double_value.is_some()
    }

    /// Clears the `double_value` field, leaving it unset.
    pub fn clear_double_value(&mut self)
        ensures
            final(self)@ == (UninterpretedOptionView { double_value: None, ..old(self)@ }),
    {
        self.double_value = None;
    }

    /// Gets the `string_value` field, or its default, no bytes.
    pub fn string_value(&self) -> (r: &[u8])
        ensures
            r@ == bytes_or_empty(self@.string_value),
    {
        match &self.string_value {
            Some(v) => v.as_slice(),
            None => {
                let empty: &[u8] = &[];
                empty
            },
        }
    }

    /// Gets the `string_value` field if it is set.
    pub fn string_value_option(&self) -> (r: Option<&Vec<u8>>)
        ensures
            opt_ref_view(r) == self@.string_value,
    {
        self.string_value.as_ref()
    }

    /// Gets the `string_value` field for changing it, setting it to its type's default first if it
    /// is not set.
    pub fn string_value_mut(&mut self) -> (r: &mut Vec<u8>)
        ensures
            (*r)@ == old(self)@.string_value.unwrap_or(Seq::<u8>::empty()),
            final(self)@ == (UninterpretedOptionView { string_value: Some((*final(r))@), ..old(self)@ }),
    {
        self.string_value.get_or_insert(Vec::new())
    }

    /// Returns whether the `string_value` field is set.
    pub fn has_string_value(&self) -> (r: bool)
        ensures
            r == self@.string_value is Some,
    {
        self.string_value.is_some()
    }

    /// Sets the `string_value` field.
    pub fn set_string_value(&mut self, value: Vec<u8>)
        ensures
            final(self)@ == (UninterpretedOptionView { string_value: Some(value@), ..old(self)@ }),
    {
        self.string_value = Some(value);
    }

    /// Takes the `string_value` field out, leaving it unset.
    pub fn take_string_value(&mut self) -> (r: Option<Vec<u8>>)
        ensures
            opt_view(r) == old(self)@.string_value,
            final(self)@ == (UninterpretedOptionView { string_value: None, ..old(self)@ }),
    {
        self.string_value.take()
    }

    /// Clears the `string_value` field, leaving it unset.
    pub fn clear_string_value(&mut self)
        ensures
            final(self)@ == (UninterpretedOptionView { string_value: None, ..old(self)@ }),
    {
        self.string_value = None;
    }

    /// Gets the `aggregate_value` field, or its default, the empty string.
    pub fn aggregate_value(&self) -> (r: &str)
        ensures
            r@ == text_or_empty(self@.aggregate_value),
    {
        proof {
            reveal_strlit("");
        }
        match &self.aggregate_value {
            Some(s) => s.as_str(),
            None => "",
        }
    }

    /// Gets the `aggregate_value` field if it is set.
    pub fn aggregate_value_option(&self) -> (r: Option<&String>)
        ensures
            opt_ref_view(r) == self@.aggregate_value,
    {
        self.aggregate_value.as_ref()
    }

    /// Gets the `aggregate_value` field for changing it, setting it to its type's default first if it
    /// is not set.
    pub fn aggregate_value_mut(&mut self) -> (r: &mut String)
        ensures
            (*r)@ == old(self)@.aggregate_value.unwrap_or(Seq::<char>::empty()),
            final(self)@ == (UninterpretedOptionView { aggregate_value: Some((*final(r))@), ..old(self)@ }),
    {
        self.aggregate_value.get_or_insert(String::new())
    }

    /// Returns whether the `aggregate_value` field is set.
    pub fn has_aggregate_value(&self) -> (r: bool)
        ensures
            r == self@.aggregate_value is Some,
    {
        self.aggregate_value.is_some()
    }

    /// Sets the `aggregate_value` field.
    pub fn set_aggregate_value(&mut self, value: String)
        ensures
            final(self)@ == (UninterpretedOptionView { aggregate_value: Some(value@), ..old(self)@ }),
    {
        self.aggregate_value = Some(value);
    }

    /// Takes the `aggregate_value` field out, leaving it unset.
    pub fn take_aggregate_value(&mut self) -> (r: Option<String>)
        ensures
            opt_view(r) == old(self)@.aggregate_value,
            final(self)@ == (UninterpretedOptionView { aggregate_value: None, ..old(self)@ }),
    {
        self.aggregate_value.take()
    }

    /// Clears the `aggregate_value` field, leaving it unset.
    pub fn clear_aggregate_value(&mut self)
        ensures
            final(self)@ == (UninterpretedOptionView { aggregate_value: None, ..old(self)@ }),
    {
        self.aggregate_value = None;
    }
}

/// The parts a `UninterpretedOption` is written as: its fields that are set, in field number order, then its
/// unknown fields.
#[verifier::opaque]
pub open spec fn uninterpreted_option_parts(v: UninterpretedOptionView) -> Seq<(bool, Seq<u8>)>
{
    name_part_seq_parts(2u32, v.name) + (opt_field_parts::<raw::String>(3u32, v.identifier_value) + (opt_field_parts::<raw::Uint64>(4u32, v.positive_int_value) + (opt_field_parts::<raw::Int64>(5u32, v.negative_int_value) + (opt_field_parts::<raw::Fixed64>(6u32, v.double_value) + (opt_field_parts::<raw::Bytes<Vec<u8>>>(7u32, v.string_value) + (opt_field_parts::<raw::String>(8u32, v.aggregate_value) + (set_parts(v.unknown_fields))))))))
}

/// The parts the `UninterpretedOption` values of a repeated field with field number `num` are written as:
/// for each, its tag, its length and its parts.
pub open spec fn uninterpreted_option_seq_parts(num: u32, ys: Seq<UninterpretedOptionView>) -> Seq<(bool, Seq<u8>)>
    decreases ys,
{
    if ys.len() == 0 {
        Seq::empty()
    } else {
        uninterpreted_option_seq_parts(num, ys.subrange(0, ys.len() - 1)) + entry_parts(num, uninterpreted_option_parts(ys[ys.len() - 1]))
    }
}

/// What reading the field with tag value `t` from the front of `rest` into `v` gives: the
/// number of bytes read and the message after, or the error.
pub open spec fn uninterpreted_option_field_read(v: UninterpretedOptionView, t: u32, rest: Seq<u8>, depth: nat, limit: nat, skip: bool, eg: Option<Tag>) -> ReadResult<(int, UninterpretedOptionView)>
{
    if t == 18u32 {
        match length_delimited_read(rest) { Err(e) => Err(e), Ok((m, b)) => if depth >= limit { Err(ReadError::RecursionLimitExceeded) } else { match name_part_merged(name_part_default(), b, depth + 1, limit, skip, eg) { Ok(y) => Ok((m, UninterpretedOptionView { name: v.name.push(y), ..v })), Err(e) => Err(e) } } }
    } else if t == 26u32 {
        match <raw::String as Value>::decoding(rest) { Ok((m, x)) => Ok((m, UninterpretedOptionView { identifier_value: Some(x), ..v })), Err(e) => Err(e) }
    } else if t == 32u32 {
        match <raw::Uint64 as Value>::decoding(rest) { Ok((m, x)) => Ok((m, UninterpretedOptionView { positive_int_value: Some(x), ..v })), Err(e) => Err(e) }
    } else if t == 40u32 {
        match <raw::Int64 as Value>::decoding(rest) { Ok((m, x)) => Ok((m, UninterpretedOptionView { negative_int_value: Some(x), ..v })), Err(e) => Err(e) }
    } else if t == 49u32 {
        match <raw::Fixed64 as Value>::decoding(rest) { Ok((m, x)) => Ok((m, UninterpretedOptionView { double_value: Some(x), ..v })), Err(e) => Err(e) }
    } else if t == 58u32 {
        match <raw::Bytes<Vec<u8>> as Value>::decoding(rest) { Ok((m, x)) => Ok((m, UninterpretedOptionView { string_value: Some(x), ..v })), Err(e) => Err(e) }
    } else if t == 66u32 {
        match <raw::String as Value>::decoding(rest) { Ok((m, x)) => Ok((m, UninterpretedOptionView { aggregate_value: Some(x), ..v })), Err(e) => Err(e) }
    } else {
        match unknown_field_read(v.unknown_fields, t, rest, depth, limit, skip, eg) {
            Ok((m, u)) => Ok((m, UninterpretedOptionView { unknown_fields: u, ..v })),
            Err(e) => Err(e),
        }
    }
}

/// What reading all of `s` into `v` as `UninterpretedOption` fields gives: the message after, or the error.
/// `depth` and `limit` are the reader's depth and recursion limit, `skip` whether it skips
/// unknown fields, and `eg` the end tag of the group it is in.
pub open spec fn uninterpreted_option_merged(v: UninterpretedOptionView, s: Seq<u8>, depth: nat, limit: nat, skip: bool, eg: Option<Tag>) -> ReadResult<UninterpretedOptionView>
    decreases s.len(),
{
    if s.len() == 0 {
        Ok(v)
    } else {
        match varint_read(s) {
            Err(e) => Err(e),
            Ok((n, w)) => if n < 1 || n > s.len() {
                Err(eof())
            } else {
                match uninterpreted_option_field_read(v, w as u32, s.skip(n), depth, limit, skip, eg) {
                    Err(e) => Err(e),
                    Ok((m, v2)) => if m < 0 || n + m > s.len() {
                        Err(eof())
                    } else {
                        uninterpreted_option_merged(v2, s.skip(n + m), depth, limit, skip, eg)
                    },
                }
            },
        }
    }
}

/// The views of a run of `UninterpretedOption` values, value by value.
pub proof fn lemma_uninterpreted_option_seq_view(s: Seq<UninterpretedOption>)
    ensures
        uninterpreted_option_seq_view(s).len() == s.len(),
        forall|i: int| 0 <= i < s.len() ==> #[trigger] uninterpreted_option_seq_view(s)[i] == uninterpreted_option_view(s[i]),
    decreases s.len(),
{
    if s.len() > 0 {
        lemma_uninterpreted_option_seq_view(s.subrange(0, s.len() - 1));
        assert forall|i: int| 0 <= i < s.len() implies #[trigger] uninterpreted_option_seq_view(s)[i] == uninterpreted_option_view(s[i]) by {
            if i < s.len() - 1 {
                assert(s.subrange(0, s.len() - 1)[i] == s[i]);
            }
        }
    }
}

/// The parts of two runs of `UninterpretedOption` values are those of the first, then the second.
proof fn lemma_uninterpreted_option_seq_parts_append(num: u32, a: Seq<UninterpretedOptionView>, b: Seq<UninterpretedOptionView>)
    ensures
        uninterpreted_option_seq_parts(num, a + b) == uninterpreted_option_seq_parts(num, a) + uninterpreted_option_seq_parts(num, b),
    decreases b.len(),
{
    if b.len() == 0 {
        assert(a + b =~= a);
        assert(uninterpreted_option_seq_parts(num, a) + uninterpreted_option_seq_parts(num, b) =~= uninterpreted_option_seq_parts(num, a));
    } else {
        let ab = a + b;
        assert(ab.subrange(0, ab.len() - 1) =~= a + b.subrange(0, b.len() - 1));
        assert(ab[ab.len() - 1] == b[b.len() - 1]);
        lemma_uninterpreted_option_seq_parts_append(num, a, b.subrange(0, b.len() - 1));
        assert(uninterpreted_option_seq_parts(num, a + b) =~= uninterpreted_option_seq_parts(num, a) + uninterpreted_option_seq_parts(num, b));
    }
}

/// The parts of the first `i + 1` values of a run are those of the first `i`, then the entry
/// of value `i`; and those of the whole run are those of the first `i + 1`, then the rest.
proof fn lemma_uninterpreted_option_seq_parts_step(num: u32, ys: Seq<UninterpretedOptionView>, i: int)
    requires
        0 <= i < ys.len(),
    ensures
        uninterpreted_option_seq_parts(num, ys.take(i + 1)) == uninterpreted_option_seq_parts(num, ys.take(i)) + entry_parts(num, uninterpreted_option_parts(ys[i])),
        uninterpreted_option_seq_parts(num, ys) == uninterpreted_option_seq_parts(num, ys.take(i + 1)) + uninterpreted_option_seq_parts(num, ys.skip(i + 1)),
{
    assert(ys.take(i + 1).subrange(0, i) =~= ys.take(i));
    assert(ys.take(i + 1)[i] == ys[i]);
    lemma_uninterpreted_option_seq_parts_append(num, ys.take(i + 1), ys.skip(i + 1));
    assert(ys.take(i + 1) + ys.skip(i + 1) =~= ys);
}

/// The parts of `UninterpretedOption` values are those of the first value's entry, then those of the others.
proof fn lemma_uninterpreted_option_seq_parts_front(num: u32, ys: Seq<UninterpretedOptionView>)
    requires
        ys.len() > 0,
    ensures
        uninterpreted_option_seq_parts(num, ys) == entry_parts(num, uninterpreted_option_parts(ys[0])) + uninterpreted_option_seq_parts(num, ys.drop_first()),
{
    let one = seq![ys[0]];
    lemma_uninterpreted_option_seq_parts_append(num, one, ys.drop_first());
    assert(one + ys.drop_first() =~= ys);
    assert(one.subrange(0, 0) =~= Seq::<UninterpretedOptionView>::empty());
    assert(uninterpreted_option_seq_parts(num, Seq::<UninterpretedOptionView>::empty()) =~= Seq::<(bool, Seq<u8>)>::empty());
    assert(one[0] == ys[0]);
    assert(uninterpreted_option_seq_parts(num, one) =~= entry_parts(num, uninterpreted_option_parts(ys[0])));
}

/// Adds the size of the `UninterpretedOption` values of a repeated field with field number `num`.
fn uninterpreted_option_values_size(vs: &Vec<UninterpretedOption>, builder: LengthBuilder, num: FieldNumber) -> (r: Option<LengthBuilder>)
    ensures
        size_added(builder@ as int, parts_encodable(uninterpreted_option_seq_parts(num@, uninterpreted_option_seq_view(vs@))), parts_bytes(uninterpreted_option_seq_parts(num@, uninterpreted_option_seq_view(vs@))).len() as int, r),
{
    let ghost ys = uninterpreted_option_seq_view(vs@);
    proof {
        lemma_uninterpreted_option_seq_view(vs@);
        assert(ys.take(0) =~= Seq::<UninterpretedOptionView>::empty());
    }
    let mut b = builder;
    let mut i: usize = 0;
    while i < vs.len()
        invariant
            ys == uninterpreted_option_seq_view(vs@),
            ys.len() == vs@.len(),
            forall|k: int| 0 <= k < vs@.len() ==> #[trigger] ys[k] == uninterpreted_option_view(vs@[k]),
            i <= vs@.len(),
            size_added(builder@ as int, parts_encodable(uninterpreted_option_seq_parts(num@, ys.take(i as int))), parts_bytes(uninterpreted_option_seq_parts(num@, ys.take(i as int))).len() as int, Some(b)),
        decreases vs@.len() - i,
    {
        let ghost y = ys[i as int];
        let ghost done = uninterpreted_option_seq_parts(num@, ys.take(i as int));
        let ghost cur = entry_parts(num@, uninterpreted_option_parts(y));
        let ghost rest = uninterpreted_option_seq_parts(num@, ys.skip(i + 1));
        proof {
            lemma_uninterpreted_option_seq_parts_step(num@, ys, i as int);
        }
        let len = vs[i].calculate_size();
        let r = add_entry_size(b, num, len, Ghost(uninterpreted_option_parts(y)));
        proof {
            lemma_size_chain(builder@ as int, done, cur, Some(b), r);
        }
        b = match r {
            Some(b1) => b1,
            None => {
                proof {
                    lemma_size_prefix(builder@ as int, done + cur, rest);
                }
                return None;
            },
        };
        i = i + 1;
    }
    proof {
        assert(ys.take(i as int) =~= ys);
    }
    Some(b)
}

/// Writes the `UninterpretedOption` values of a repeated field with field number `num`: for each, its tag,
/// its length and its fields.
fn write_uninterpreted_option_values(vs: &Vec<UninterpretedOption>, output: &mut CodedWriter, num: FieldNumber) -> (r: WriteResult)
    ensures
        (final(output).written(), r) == parts_written(old(output).written(), old(output).capacity(), uninterpreted_option_seq_parts(num@, uninterpreted_option_seq_view(vs@))),
        final(output).capacity() == old(output).capacity(),
        (*final(final(output).target()))@ == (*final(old(output).target()))@,
{
    let ghost ys = uninterpreted_option_seq_view(vs@);
    let ghost start = output.written();
    let ghost cap = output.capacity();
    proof {
        lemma_uninterpreted_option_seq_view(vs@);
        assert(ys.take(0) =~= Seq::<UninterpretedOptionView>::empty());
    }
    let mut i: usize = 0;
    while i < vs.len()
        invariant
            ys == uninterpreted_option_seq_view(vs@),
            ys.len() == vs@.len(),
            forall|k: int| 0 <= k < vs@.len() ==> #[trigger] ys[k] == uninterpreted_option_view(vs@[k]),
            i <= vs@.len(),
            start == old(output).written(),
            cap == old(output).capacity(),
            output.capacity() == cap,
            (*final(output.target()))@ == (*final(old(output).target()))@,
            parts_written(start, cap, uninterpreted_option_seq_parts(num@, ys.take(i as int))).0 == output.written(),
            parts_written(start, cap, uninterpreted_option_seq_parts(num@, ys.take(i as int))).1 is Ok,
        decreases vs@.len() - i,
    {
        let ghost y = ys[i as int];
        let ghost done = uninterpreted_option_seq_parts(num@, ys.take(i as int));
        let ghost head = entry_head(num@, uninterpreted_option_parts(y));
        let ghost cur = head + uninterpreted_option_parts(y);
        let ghost rest = uninterpreted_option_seq_parts(num@, ys.skip(i + 1));
        let ghost w0 = output.written();
        proof {
            lemma_uninterpreted_option_seq_parts_step(num@, ys, i as int);
            lemma_parts_written_append(start, cap, done, cur);
            lemma_parts_written_append(start, cap, done + cur, rest);
            lemma_parts_written_append(w0, cap, head, uninterpreted_option_parts(y));
            reveal_with_fuel(parts_written, 3);
            assert(head.drop_first().drop_first() =~= Seq::<(bool, Seq<u8>)>::empty());
        }
        match output.write_tag(Tag::new(num, WireType::LengthDelimited)) {
            Ok(()) => {},
            Err(e) => return Err(e),
        }
        let len = match vs[i].calculate_size() {
            Some(len) => len,
            None => return Err(WriteError::ValueTooLarge),
        };
        match output.write_length(len) {
            Ok(()) => {},
            Err(e) => return Err(e),
        }
        match vs[i].write_to(output) {
            Ok(()) => {},
            Err(e) => return Err(e),
        }
        i = i + 1;
    }
    proof {
        assert(ys.take(i as int) =~= ys);
        lemma_ok_unit(parts_written(start, cap, uninterpreted_option_seq_parts(num@, ys)).1);
    }
    Ok(())
}

/// Reads a `UninterpretedOption` from the reader as a length delimited value, merging it into `this`, one
/// level deeper.
fn merge_uninterpreted_option_delimited(this: &mut UninterpretedOption, input: &mut CodedReader) -> (r: ReadResult<()>)
    ensures
        match length_delimited_read(old(input).available()) {
            Err(e) => r == Err::<(), ReadError>(e) && same_config(*old(input), *final(input)),
            Ok((m, b)) => if old(input).depth() >= old(input).recursion_limit() {
                r == Err::<(), ReadError>(ReadError::RecursionLimitExceeded) && same_config(*old(input), *final(input))
            } else {
                match uninterpreted_option_merged(old(this)@, b, old(input).depth() + 1, old(input).recursion_limit(), skips(*old(input)), old(input).end_group_view()) {
                    Ok(y) => r is Ok && final(this)@ == y && final(input).position() == old(input).position() + m
                        && same_state(*old(input), *final(input)),
                    Err(e) => r == Err::<(), ReadError>(e) && same_config(*old(input), *final(input)),
                }
            },
        },
{
    let rem0 = input.remaining();
    let ghost s = input.available();
    let ghost start = *input;
    let length = match input.read_length() {
        Ok(l) => l,
        Err(e) => return Err(e),
    };
    let rem1 = input.remaining();
    let ghost n0 = input.position() - start.position();
    proof {
        lemma_varint_read_len(s);
        assert(input.available() =~= s.skip(n0));
    }
    let previous = match input.push_length(length) {
        Ok(p) => p,
        Err(e) => return Err(e),
    };
    let rem2 = input.remaining();
    let ghost b = s.subrange(n0, n0 + length@);
    proof {
        assert(input.available() =~= b);
        assert(length_delimited_read(s) == Ok::<(int, Seq<u8>), ReadError>((n0 + length@, b)));
    }
    let ghost pushed = *input;
    match input.increment_recursion_count() {
        Ok(()) => {},
        Err(e) => {
            input.pop_length(previous);
            return Err(e);
        },
    }
    let r = this.merge_from(input);
    let rem3 = input.remaining();
    input.decrement_recursion_count();
    input.pop_length(previous);
    r
}

impl UninterpretedOption {
    /// Gets the unknown fields of the message.
    pub fn unknown_fields(&self) -> (r: &UnknownFieldSet)
        ensures
            r@ == self@.unknown_fields,
    {
        &self.unknown_fields
    }

    /// Gets the unknown fields of the message for changing them.
    pub fn unknown_fields_mut(&mut self) -> (r: &mut UnknownFieldSet)
        ensures
            (*r)@ == old(self)@.unknown_fields,
            final(self)@ == (UninterpretedOptionView { unknown_fields: (*final(r))@, ..old(self)@ }),
    {
        &mut self.unknown_fields
    }

    /// Returns whether the message is initialized: whether all its required fields are set.
    pub fn is_initialized(&self) -> (r: bool)
        ensures
            r,
    {
        if !crate::is_initialized(&self.name) {
            return false;
        }
        true
    }

    /// Calculates the size of the message as it is written: `None` if a part cannot be
    /// written or the size does not fit in a length.
    #[verifier::spinoff_prover]
    #[verifier::rlimit(100)]
    pub fn calculate_size(&self) -> (r: Option<Length>)
        ensures
            opt_length(r) == parts_size(uninterpreted_option_parts(self@)),
    {
        let ghost v = self@;
        let ghost all = uninterpreted_option_parts(v);
        let b0 = LengthBuilder::new();
        let ghost d0 = Seq::<(bool, Seq<u8>)>::empty();
        proof {
            reveal(uninterpreted_option_parts);
            assert(all =~= d0 + all);
        }
        let ghost p1 = name_part_seq_parts(2u32, v.name);
        let ghost rest1 = opt_field_parts::<raw::String>(3u32, v.identifier_value) + (opt_field_parts::<raw::Uint64>(4u32, v.positive_int_value) + (opt_field_parts::<raw::Int64>(5u32, v.negative_int_value) + (opt_field_parts::<raw::Fixed64>(6u32, v.double_value) + (opt_field_parts::<raw::Bytes<Vec<u8>>>(7u32, v.string_value) + (opt_field_parts::<raw::String>(8u32, v.aggregate_value) + (set_parts(v.unknown_fields)))))));
        proof {
            assert(all == d0 + (p1 + rest1));
            assert(d0 + (p1 + rest1) =~= d0 + p1 + rest1);
        }
        let r1 = name_part_values_size(&self.name, b0, FieldNumber::new_unchecked(2));
        proof {
            lemma_size_chain(0, d0, p1, Some(b0), r1);
            if r1 is None {
                lemma_size_chain(0, d0 + p1, rest1, r1, r1);
            }
        }
        let b1 = match r1 {
            Some(b) => b,
            None => return None,
        };
        let ghost d1 = d0 + p1;
        let ghost p2 = opt_field_parts::<raw::String>(3u32, v.identifier_value);
        let ghost rest2 = opt_field_parts::<raw::Uint64>(4u32, v.positive_int_value) + (opt_field_parts::<raw::Int64>(5u32, v.negative_int_value) + (opt_field_parts::<raw::Fixed64>(6u32, v.double_value) + (opt_field_parts::<raw::Bytes<Vec<u8>>>(7u32, v.string_value) + (opt_field_parts::<raw::String>(8u32, v.aggregate_value) + (set_parts(v.unknown_fields))))));
        proof {
            assert(self@.identifier_value == opt_inner_view::<raw::String>(self.identifier_value));
            assert(all == d1 + (p2 + rest2));
            assert(d1 + (p2 + rest2) =~= d1 + p2 + rest2);
        }
        let r2 = add_opt_field::<raw::String>(b1, FieldNumber::new_unchecked(3), &self.identifier_value);
        proof {
            lemma_size_chain(0, d1, p2, Some(b1), r2);
            if r2 is None {
                lemma_size_chain(0, d1 + p2, rest2, r2, r2);
            }
        }
        let b2 = match r2 {
            Some(b) => b,
            None => return None,
        };
        let ghost d2 = d1 + p2;
        let ghost p3 = opt_field_parts::<raw::Uint64>(4u32, v.positive_int_value);
        let ghost rest3 = opt_field_parts::<raw::Int64>(5u32, v.negative_int_value) + (opt_field_parts::<raw::Fixed64>(6u32, v.double_value) + (opt_field_parts::<raw::Bytes<Vec<u8>>>(7u32, v.string_value) + (opt_field_parts::<raw::String>(8u32, v.aggregate_value) + (set_parts(v.unknown_fields)))));
        proof {
            assert(self@.positive_int_value == opt_inner_view::<raw::Uint64>(self.positive_int_value));
            assert(all == d2 + (p3 + rest3));
            assert(d2 + (p3 + rest3) =~= d2 + p3 + rest3);
        }
        let r3 = add_opt_field::<raw::Uint64>(b2, FieldNumber::new_unchecked(4), &self.positive_int_value);
        proof {
            lemma_size_chain(0, d2, p3, Some(b2), r3);
            if r3 is None {
                lemma_size_chain(0, d2 + p3, rest3, r3, r3);
            }
        }
        let b3 = match r3 {
            Some(b) => b,
            None => return None,
        };
        let ghost d3 = d2 + p3;
        let ghost p4 = opt_field_parts::<raw::Int64>(5u32, v.negative_int_value);
        let ghost rest4 = opt_field_parts::<raw::Fixed64>(6u32, v.double_value) + (opt_field_parts::<raw::Bytes<Vec<u8>>>(7u32, v.string_value) + (opt_field_parts::<raw::String>(8u32, v.aggregate_value) + (set_parts(v.unknown_fields))));
        proof {
            assert(self@.negative_int_value == opt_inner_view::<raw::Int64>(self.negative_int_value));
            assert(all == d3 + (p4 + rest4));
            assert(d3 + (p4 + rest4) =~= d3 + p4 + rest4);
        }
        let r4 = add_opt_field::<raw::Int64>(b3, FieldNumber::new_unchecked(5), &self.negative_int_value);
        proof {
            lemma_size_chain(0, d3, p4, Some(b3), r4);
            if r4 is None {
                lemma_size_chain(0, d3 + p4, rest4, r4, r4);
            }
        }
        let b4 = match r4 {
            Some(b) => b,
            None => return None,
        };
        let ghost d4 = d3 + p4;
        let ghost p5 = opt_field_parts::<raw::Fixed64>(6u32, v.double_value);
        let ghost rest5 = opt_field_parts::<raw::Bytes<Vec<u8>>>(7u32, v.string_value) + (opt_field_parts::<raw::String>(8u32, v.aggregate_value) + (set_parts(v.unknown_fields)));
        proof {
            assert(self@.double_value == opt_inner_view::<raw::Fixed64>(self.double_value));
            assert(all == d4 + (p5 + rest5));
            assert(d4 + (p5 + rest5) =~= d4 + p5 + rest5);
        }
        let r5 = add_opt_field::<raw::Fixed64>(b4, FieldNumber::new_unchecked(6), &self.double_value);
        proof {
            lemma_size_chain(0, d4, p5, Some(b4), r5);
            if r5 is None {
                lemma_size_chain(0, d4 + p5, rest5, r5, r5);
            }
        }
        let b5 = match r5 {
            Some(b) => b,
            None => return None,
        };
        let ghost d5 = d4 + p5;
        let ghost p6 = opt_field_parts::<raw::Bytes<Vec<u8>>>(7u32, v.string_value);
        let ghost rest6 = opt_field_parts::<raw::String>(8u32, v.aggregate_value) + (set_parts(v.unknown_fields));
        proof {
            assert(self@.string_value == opt_inner_view::<raw::Bytes<Vec<u8>>>(self.string_value));
            assert(all == d5 + (p6 + rest6));
            assert(d5 + (p6 + rest6) =~= d5 + p6 + rest6);
        }
        let r6 = add_opt_field::<raw::Bytes<Vec<u8>>>(b5, FieldNumber::new_unchecked(7), &self.string_value);
        proof {
            lemma_size_chain(0, d5, p6, Some(b5), r6);
            if r6 is None {
                lemma_size_chain(0, d5 + p6, rest6, r6, r6);
            }
        }
        let b6 = match r6 {
            Some(b) => b,
            None => return None,
        };
        let ghost d6 = d5 + p6;
        let ghost p7 = opt_field_parts::<raw::String>(8u32, v.aggregate_value);
        let ghost rest7 = set_parts(v.unknown_fields);
        proof {
            assert(self@.aggregate_value == opt_inner_view::<raw::String>(self.aggregate_value));
            assert(all == d6 + (p7 + rest7));
            assert(d6 + (p7 + rest7) =~= d6 + p7 + rest7);
        }
        let r7 = add_opt_field::<raw::String>(b6, FieldNumber::new_unchecked(8), &self.aggregate_value);
        proof {
            lemma_size_chain(0, d6, p7, Some(b6), r7);
            if r7 is None {
                lemma_size_chain(0, d6 + p7, rest7, r7, r7);
            }
        }
        let b7 = match r7 {
            Some(b) => b,
            None => return None,
        };
        let ghost d7 = d6 + p7;
        let ghost p8 = set_parts(v.unknown_fields);
        let ghost rest8 = Seq::<(bool, Seq<u8>)>::empty();
        proof {
            assert(all == d7 + p8);
            assert(p8 + rest8 =~= p8);
            assert(d7 + (p8 + rest8) =~= d7 + p8 + rest8);
        }
        let r8 = self.unknown_fields.calculate_size(b7);
        proof {
            lemma_size_chain(0, d7, p8, Some(b7), r8);
            if r8 is None {
                lemma_size_chain(0, d7 + p8, rest8, r8, r8);
            }
        }
        let b8 = match r8 {
            Some(b) => b,
            None => return None,
        };
        let ghost d8 = d7 + p8;
        Some(b8.build())
    }

    /// Writes the message to the writer: its fields that are set, in field number order, then
    /// its unknown fields.
    #[verifier::spinoff_prover]
    #[verifier::rlimit(100)]
    pub fn write_to(&self, output: &mut CodedWriter) -> (r: WriteResult)
        ensures
            (final(output).written(), r) == parts_written(old(output).written(), old(output).capacity(), uninterpreted_option_parts(self@)),
            final(output).capacity() == old(output).capacity(),
            (*final(final(output).target()))@ == (*final(old(output).target()))@,
    {
        let ghost v = self@;
        let ghost all = uninterpreted_option_parts(v);
        let ghost start = output.written();
        let ghost cap = output.capacity();
        let ghost d0 = Seq::<(bool, Seq<u8>)>::empty();
        proof {
            reveal(uninterpreted_option_parts);
            assert(all =~= d0 + all);
        }
        let ghost p1 = name_part_seq_parts(2u32, v.name);
        let ghost rest1 = opt_field_parts::<raw::String>(3u32, v.identifier_value) + (opt_field_parts::<raw::Uint64>(4u32, v.positive_int_value) + (opt_field_parts::<raw::Int64>(5u32, v.negative_int_value) + (opt_field_parts::<raw::Fixed64>(6u32, v.double_value) + (opt_field_parts::<raw::Bytes<Vec<u8>>>(7u32, v.string_value) + (opt_field_parts::<raw::String>(8u32, v.aggregate_value) + (set_parts(v.unknown_fields)))))));
        proof {
            assert(all == d0 + (p1 + rest1));
            assert(d0 + (p1 + rest1) =~= d0 + p1 + rest1);
            lemma_parts_written_append(start, cap, d0, p1);
            lemma_parts_written_append(start, cap, d0 + p1, rest1);
        }
        match write_name_part_values(&self.name, output, FieldNumber::new_unchecked(2)) {
            Ok(()) => {},
            Err(e) => return Err(e),
        }
        let ghost d1 = d0 + p1;
        let ghost p2 = opt_field_parts::<raw::String>(3u32, v.identifier_value);
        let ghost rest2 = opt_field_parts::<raw::Uint64>(4u32, v.positive_int_value) + (opt_field_parts::<raw::Int64>(5u32, v.negative_int_value) + (opt_field_parts::<raw::Fixed64>(6u32, v.double_value) + (opt_field_parts::<raw::Bytes<Vec<u8>>>(7u32, v.string_value) + (opt_field_parts::<raw::String>(8u32, v.aggregate_value) + (set_parts(v.unknown_fields))))));
        proof {
            assert(self@.identifier_value == opt_inner_view::<raw::String>(self.identifier_value));
            assert(all == d1 + (p2 + rest2));
            assert(d1 + (p2 + rest2) =~= d1 + p2 + rest2);
            lemma_parts_written_append(start, cap, d1, p2);
            lemma_parts_written_append(start, cap, d1 + p2, rest2);
        }
        match write_opt_field::<raw::String>(output, FieldNumber::new_unchecked(3), &self.identifier_value) {
            Ok(()) => {},
            Err(e) => return Err(e),
        }
        let ghost d2 = d1 + p2;
        let ghost p3 = opt_field_parts::<raw::Uint64>(4u32, v.positive_int_value);
        let ghost rest3 = opt_field_parts::<raw::Int64>(5u32, v.negative_int_value) + (opt_field_parts::<raw::Fixed64>(6u32, v.double_value) + (opt_field_parts::<raw::Bytes<Vec<u8>>>(7u32, v.string_value) + (opt_field_parts::<raw::String>(8u32, v.aggregate_value) + (set_parts(v.unknown_fields)))));
        proof {
            assert(self@.positive_int_value == opt_inner_view::<raw::Uint64>(self.positive_int_value));
            assert(all == d2 + (p3 + rest3));
            assert(d2 + (p3 + rest3) =~= d2 + p3 + rest3);
            lemma_parts_written_append(start, cap, d2, p3);
            lemma_parts_written_append(start, cap, d2 + p3, rest3);
        }
        match write_opt_field::<raw::Uint64>(output, FieldNumber::new_unchecked(4), &self.positive_int_value) {
            Ok(()) => {},
            Err(e) => return Err(e),
        }
        let ghost d3 = d2 + p3;
        let ghost p4 = opt_field_parts::<raw::Int64>(5u32, v.negative_int_value);
        let ghost rest4 = opt_field_parts::<raw::Fixed64>(6u32, v.double_value) + (opt_field_parts::<raw::Bytes<Vec<u8>>>(7u32, v.string_value) + (opt_field_parts::<raw::String>(8u32, v.aggregate_value) + (set_parts(v.unknown_fields))));
        proof {
            assert(self@.negative_int_value == opt_inner_view::<raw::Int64>(self.negative_int_value));
            assert(all == d3 + (p4 + rest4));
            assert(d3 + (p4 + rest4) =~= d3 + p4 + rest4);
            lemma_parts_written_append(start, cap, d3, p4);
            lemma_parts_written_append(start, cap, d3 + p4, rest4);
        }
        match write_opt_field::<raw::Int64>(output, FieldNumber::new_unchecked(5), &self.negative_int_value) {
            Ok(()) => {},
            Err(e) => return Err(e),
        }
        let ghost d4 = d3 + p4;
        let ghost p5 = opt_field_parts::<raw::Fixed64>(6u32, v.double_value);
        let ghost rest5 = opt_field_parts::<raw::Bytes<Vec<u8>>>(7u32, v.string_value) + (opt_field_parts::<raw::String>(8u32, v.aggregate_value) + (set_parts(v.unknown_fields)));
        proof {
            assert(self@.double_value == opt_inner_view::<raw::Fixed64>(self.double_value));
            assert(all == d4 + (p5 + rest5));
            assert(d4 + (p5 + rest5) =~= d4 + p5 + rest5);
            lemma_parts_written_append(start, cap, d4, p5);
            lemma_parts_written_append(start, cap, d4 + p5, rest5);
        }
        match write_opt_field::<raw::Fixed64>(output, FieldNumber::new_unchecked(6), &self.double_value) {
            Ok(()) => {},
            Err(e) => return Err(e),
        }
        let ghost d5 = d4 + p5;
        let ghost p6 = opt_field_parts::<raw::Bytes<Vec<u8>>>(7u32, v.string_value);
        let ghost rest6 = opt_field_parts::<raw::String>(8u32, v.aggregate_value) + (set_parts(v.unknown_fields));
        proof {
            assert(self@.string_value == opt_inner_view::<raw::Bytes<Vec<u8>>>(self.string_value));
            assert(all == d5 + (p6 + rest6));
            assert(d5 + (p6 + rest6) =~= d5 + p6 + rest6);
            lemma_parts_written_append(start, cap, d5, p6);
            lemma_parts_written_append(start, cap, d5 + p6, rest6);
        }
        match write_opt_field::<raw::Bytes<Vec<u8>>>(output, FieldNumber::new_unchecked(7), &self.string_value) {
            Ok(()) => {},
            Err(e) => return Err(e),
        }
        let ghost d6 = d5 + p6;
        let ghost p7 = opt_field_parts::<raw::String>(8u32, v.aggregate_value);
        let ghost rest7 = set_parts(v.unknown_fields);
        proof {
            assert(self@.aggregate_value == opt_inner_view::<raw::String>(self.aggregate_value));
            assert(all == d6 + (p7 + rest7));
            assert(d6 + (p7 + rest7) =~= d6 + p7 + rest7);
            lemma_parts_written_append(start, cap, d6, p7);
            lemma_parts_written_append(start, cap, d6 + p7, rest7);
        }
        match write_opt_field::<raw::String>(output, FieldNumber::new_unchecked(8), &self.aggregate_value) {
            Ok(()) => {},
            Err(e) => return Err(e),
        }
        let ghost d7 = d6 + p7;
        let ghost p8 = set_parts(v.unknown_fields);
        let ghost rest8 = Seq::<(bool, Seq<u8>)>::empty();
        proof {
            assert(all == d7 + p8);
            assert(p8 + rest8 =~= p8);
            assert(d7 + (p8 + rest8) =~= d7 + p8 + rest8);
            lemma_parts_written_append(start, cap, d7, p8);
            lemma_parts_written_append(start, cap, d7 + p8, rest8);
        }
        match self.unknown_fields.write_to(output) {
            Ok(()) => {},
            Err(e) => return Err(e),
        }
        let ghost d8 = d7 + p8;
        proof {
            assert(all =~= d8 + Seq::<(bool, Seq<u8>)>::empty());
            assert(all == d8);
            lemma_ok_unit(parts_written(start, cap, all).1);
        }
        Ok(())
    }

    /// Reads the value of the field whose tag value `t` was just read into the message.
    #[verifier::spinoff_prover]
    fn merge_field(&mut self, t: u32, input: &mut CodedReader) -> (r: ReadResult<()>)
        ensures
            match uninterpreted_option_field_read(old(self)@, t, old(input).available(), old(input).depth(), old(input).recursion_limit(), skips(*old(input)), old(input).end_group_view()) {
                Ok((m, v2)) => r is Ok && final(self)@ == v2 && m >= 0 && final(input).position()
                    == old(input).position() + m && same_state(*old(input), *final(input)),
                Err(e) => r == Err::<(), ReadError>(e) && same_config(*old(input), *final(input)),
            },
    {
        let rem0 = input.remaining();
        let ghost rest = input.available();
        if t == 18u32 {
            proof {
                lemma_length_delimited_read_len(rest);
            }
            input.set_last_tag(Some(Tag::new(FieldNumber::new_unchecked(2), WireType::LengthDelimited)));
            let mut y = NamePart::default();
            match merge_name_part_delimited(&mut y, input) {
                Ok(()) => {},
                Err(e) => return Err(e),
            }
            let ghost old_values = self.name@;
            self.name.push(y);
            proof {
                assert(self.name@.subrange(0, self.name@.len() - 1) =~= old_values);
            }
        } else if t == 26u32 {
            proof {
                <raw::String as Value>::lemma_decoding_len(rest);
            }
            input.set_last_tag(Some(Tag::new(FieldNumber::new_unchecked(3), WireType::LengthDelimited)));
            match <raw::String as Value>::merge_from(self.identifier_value.get_or_insert(std::string::String::new()), input) {
                Ok(()) => {},
                Err(e) => return Err(e),
            }
        } else if t == 32u32 {
            proof {
                <raw::Uint64 as Value>::lemma_decoding_len(rest);
            }
            input.set_last_tag(Some(Tag::new(FieldNumber::new_unchecked(4), WireType::Varint)));
            match <raw::Uint64 as Value>::merge_from(self.positive_int_value.get_or_insert(0u64), input) {
                Ok(()) => {},
                Err(e) => return Err(e),
            }
        } else if t == 40u32 {
            proof {
                <raw::Int64 as Value>::lemma_decoding_len(rest);
            }
            input.set_last_tag(Some(Tag::new(FieldNumber::new_unchecked(5), WireType::Varint)));
            match <raw::Int64 as Value>::merge_from(self.negative_int_value.get_or_insert(0i64), input) {
                Ok(()) => {},
                Err(e) => return Err(e),
            }
        } else if t == 49u32 {
            proof {
                <raw::Fixed64 as Value>::lemma_decoding_len(rest);
            }
            input.set_last_tag(Some(Tag::new(FieldNumber::new_unchecked(6), WireType::Bit64)));
            match <raw::Fixed64 as Value>::merge_from(self.double_value.get_or_insert(0u64), input) {
                Ok(()) => {},
                Err(e) => return Err(e),
            }
        } else if t == 58u32 {
            proof {
                <raw::Bytes<Vec<u8>> as Value>::lemma_decoding_len(rest);
            }
            input.set_last_tag(Some(Tag::new(FieldNumber::new_unchecked(7), WireType::LengthDelimited)));
            match <raw::Bytes<Vec<u8>> as Value>::merge_from(self.string_value.get_or_insert(Vec::new()), input) {
                Ok(()) => {},
                Err(e) => return Err(e),
            }
        } else if t == 66u32 {
            proof {
                <raw::String as Value>::lemma_decoding_len(rest);
            }
            input.set_last_tag(Some(Tag::new(FieldNumber::new_unchecked(8), WireType::LengthDelimited)));
            match <raw::String as Value>::merge_from(self.aggregate_value.get_or_insert(std::string::String::new()), input) {
                Ok(()) => {},
                Err(e) => return Err(e),
            }
        } else {
            let tag = match Tag::try_from(t) {
                Ok(tag) => tag,
                Err(_) => return Err(ReadError::InvalidTag(t)),
            };
            input.set_last_tag(Some(tag));
            match self.unknown_fields.try_add_field_from(input) {
                Ok(TryRead::Consumed) => {},
                Ok(TryRead::Yielded) => match input.skip() {
                    Ok(()) => {},
                    Err(e) => return Err(e),
                },
                Err(e) => return Err(e),
            }
        }
        let rem1 = input.remaining();
        Ok(())
    }

    /// Merges the message with fields read from the reader, up to its limit. Scalar fields
    /// read replace those set, message fields are merged, repeated fields are added to,
    /// and unknown fields are stored or skipped as the reader says. On an error the message
    /// may hold some of the fields read before it.
    #[verifier::spinoff_prover]
    #[verifier::rlimit(50)]
    pub fn merge_from(&mut self, input: &mut CodedReader) -> (r: ReadResult<()>)
        ensures
            merge_outcome(uninterpreted_option_merged(old(self)@, old(input).available(), old(input).depth(), old(input).recursion_limit(), skips(*old(input)), old(input).end_group_view()), final(self)@, *old(input), *final(input), r),
    {
        let rem0 = input.remaining();
        let ghost start = *input;
        let ghost total = uninterpreted_option_merged(self@, input.available(), input.depth(), input.recursion_limit(), skips(*input), input.end_group_view());
        loop
            invariant
                start == *old(input),
                same_state(start, *input),
                0 <= start.position() <= input.position(),
                input.limit_end() <= input.input().len(),
                total == uninterpreted_option_merged(old(self)@, start.available(), start.depth(), start.recursion_limit(), skips(start), start.end_group_view()),
                total == uninterpreted_option_merged(self@, input.available(), start.depth(), start.recursion_limit(), skips(start), start.end_group_view()),
            decreases input.available().len(),
        {
            let ghost s = input.available();
            let ghost before = *input;
            let ghost v = self@;
            let t = match input.read_field() {
                Ok(Some(t)) => t,
                Ok(None) => return Ok(()),
                Err(e) => return Err(e),
            };
            let rem1 = input.remaining();
            let ghost n = input.position() - before.position();
            proof {
                lemma_varint_read_len(s);
                assert(input.available() =~= s.skip(n));
            }
            let ghost mid = *input;
            match self.merge_field(t, input) {
                Ok(()) => {},
                Err(e) => return Err(e),
            }
            let rem2 = input.remaining();
            proof {
                let m = input.position() - mid.position();
                assert(input.available() =~= s.skip(n + m));
            }
        }
    }
}

impl crate::Message for UninterpretedOption {
    open spec fn merged(v: UninterpretedOptionView, s: Seq<u8>, depth: nat, limit: nat, skip: bool, eg: Option<Tag>) -> ReadResult<UninterpretedOptionView> {
        uninterpreted_option_merged(v, s, depth, limit, skip, eg)
    }

    open spec fn parts(v: UninterpretedOptionView) -> Seq<(bool, Seq<u8>)> {
        uninterpreted_option_parts(v)
    }

    open spec fn initialized(v: UninterpretedOptionView) -> bool {
        true
    }

    open spec fn unknown_fields_of(v: UninterpretedOptionView) -> Seq<(u32, Seq<FieldValue>)> {
        v.unknown_fields
    }

    open spec fn with_unknown_fields(v: UninterpretedOptionView, u: Seq<(u32, Seq<FieldValue>)>) -> UninterpretedOptionView {
        UninterpretedOptionView { unknown_fields: u, ..v }
    }

    fn merge_from(&mut self, input: &mut CodedReader) -> (r: ReadResult<()>) {
        UninterpretedOption::merge_from(self, input)
    }

    fn calculate_size(&self) -> (r: Option<Length>) {
        UninterpretedOption::calculate_size(self)
    }

    fn write_to(&self, output: &mut CodedWriter) -> (r: WriteResult) {
        UninterpretedOption::write_to(self, output)
    }

    fn is_initialized(&self) -> (r: bool) {
        UninterpretedOption::is_initialized(self)
    }

    fn unknown_fields(&self) -> (r: &UnknownFieldSet) {
        UninterpretedOption::unknown_fields(self)
    }

    fn unknown_fields_mut(&mut self) -> (r: &mut UnknownFieldSet) {
        UninterpretedOption::unknown_fields_mut(self)
    }
}

impl DebugMessage for UninterpretedOption {
    open spec fn spec_full_name() -> Seq<char> {
        "google.protobuf.UninterpretedOption"@
    }

    open spec fn spec_name() -> Seq<char> {
        "UninterpretedOption"@
    }

    fn full_name() -> (r: &'static str) {
        "google.protobuf.UninterpretedOption"
    }

    fn name() -> (r: &'static str) {
        "UninterpretedOption"
    }
}

/// Whether `t` is the tag of a field a `UninterpretedOption` reads.
pub open spec fn uninterpreted_option_known_tag(t: u32) -> bool {
    t == 18u32 || t == 26u32 || t == 32u32 || t == 40u32 || t == 49u32 || t == 58u32 || t == 66u32
}

/// Whether a `UninterpretedOption` is read back as it is written, at nesting depth `depth` of a reader with
/// recursion limit `limit`: its messages are read back as written one level deeper, within
/// the limit; and its unknown fields are read back as written, none with the tag of one of
/// its fields.
pub open spec fn uninterpreted_option_roundtrips(v: UninterpretedOptionView, depth: nat, limit: nat) -> bool
{
    &&& (v.name.len() > 0 ==> depth < limit)
    &&& forall|i: int| 0 <= i < v.name.len() ==> name_part_roundtrips(#[trigger] v.name[i], depth + 1, limit)
    &&& set_readable(v.unknown_fields)
    &&& forall|k: int| 0 <= k < set_pairs(v.unknown_fields).len() ==> !uninterpreted_option_known_tag(tag_value(
        #[trigger] set_pairs(v.unknown_fields)[k].0,
        field_value_wire_type(set_pairs(v.unknown_fields)[k].1),
    ))
}

/// Reading a `UninterpretedOption` field whose tag is read from the front of `s` and whose value is read after
/// it continues with the rest of `s`.
proof fn lemma_uninterpreted_option_step(v: UninterpretedOptionView, s: Seq<u8>, k: int, t: u32, m: int, v2: UninterpretedOptionView, depth: nat, limit: nat)
    requires
        varint_read(s) == Ok::<(int, u64), ReadError>((k, t as u64)),
        1 <= k <= s.len(),
        uninterpreted_option_field_read(v, t, s.skip(k), depth, limit, false, None) == Ok::<(int, UninterpretedOptionView), ReadError>((m, v2)),
        0 <= m,
        k + m <= s.len(),
    ensures
        uninterpreted_option_merged(v, s, depth, limit, false, None) == uninterpreted_option_merged(v2, s.skip(k + m), depth, limit, false, None),
{
    assert((t as u64) as u32 == t);
}

/// Reading the entries of `NamePart` values written as field `name` of a `UninterpretedOption` adds the values.
#[verifier::spinoff_prover]
#[verifier::rlimit(60)]
proof fn lemma_uninterpreted_option_read_name(v: UninterpretedOptionView, ys: Seq<NamePartView>, rest: Seq<u8>, depth: nat, limit: nat)
    requires
        parts_encodable(name_part_seq_parts(2u32, ys)),
        ys.len() > 0 ==> depth < limit,
        forall|i: int| 0 <= i < ys.len() ==> name_part_roundtrips(#[trigger] ys[i], depth + 1, limit),
    ensures
        uninterpreted_option_merged(v, parts_bytes(name_part_seq_parts(2u32, ys)) + rest, depth, limit, false, None) == uninterpreted_option_merged(
            UninterpretedOptionView { name: v.name + ys, ..v },
            rest,
            depth, limit, false, None,
        ),
    decreases ys.len(),
{
    if ys.len() == 0 {
        assert(parts_bytes(name_part_seq_parts(2u32, ys)) + rest =~= rest);
        assert(v.name + ys =~= v.name);
    } else {
        let y = ys[0];
        let tail = ys.drop_first();
        assert forall|i: int| 0 <= i < tail.len() implies name_part_roundtrips(#[trigger] tail[i], depth + 1, limit) by {
            assert(tail[i] == ys[i + 1]);
        }
        lemma_name_part_seq_parts_front(2u32, ys);
        let ep = entry_parts(2u32, name_part_parts(y));
        lemma_parts_encodable_two(ep, name_part_seq_parts(2u32, tail));
        lemma_parts_bytes_append(ep, name_part_seq_parts(2u32, tail));
        assert(ep[1].0);
        let after = parts_bytes(name_part_seq_parts(2u32, tail)) + rest;
        let s = parts_bytes(name_part_seq_parts(2u32, ys)) + rest;
        assert(s =~= parts_bytes(ep) + after);
        lemma_entry_bytes_read(2u32, name_part_parts(y), after);
        lemma_tag_value(2u32, WireType::LengthDelimited);
        lemma_name_part_roundtrip(y, depth + 1, limit);
        let hl = parts_bytes(ep).len() as int;
        let k = varint_len(18u64) as int;
        let v2 = UninterpretedOptionView { name: v.name.push(y), ..v };
        lemma_uninterpreted_option_step(v, s, k, 18u32, hl - k, v2, depth, limit);
        lemma_uninterpreted_option_read_name(v2, tail, rest, depth, limit);
        assert(v.name.push(y) + tail =~= v.name + ys);
    }
}

/// Reading the field `identifier_value` of a `UninterpretedOption` written from `o` sets it to `o`, whatever it held; nothing
/// is written, and nothing changes, for `None`.
proof fn lemma_uninterpreted_option_read_identifier_value(d: UninterpretedOptionView, o: Option<Seq<char>>, rest: Seq<u8>, depth: nat, limit: nat)
    requires
        parts_encodable(opt_field_parts::<raw::String>(3u32, o)),
    ensures
        uninterpreted_option_merged(d, parts_bytes(opt_field_parts::<raw::String>(3u32, o)) + rest, depth, limit, false, None) == uninterpreted_option_merged(if o is Some { UninterpretedOptionView { identifier_value: o, ..d } } else { d }, rest, depth, limit, false, None),
{
    match o {
        None => {
            assert(parts_bytes(opt_field_parts::<raw::String>(3u32, o)) + rest =~= rest);
        },
        Some(x) => {
            let p = field_parts::<raw::String>(3u32, x);
            assert(p[1].0);
            let s = parts_bytes(p) + rest;
            lemma_field_bytes_read::<raw::String>(3u32, x, rest);
            lemma_tag_value(3u32, WireType::LengthDelimited);
            let hl = parts_bytes(p).len() as int;
            let k = varint_len(26u64) as int;
            let v2 = UninterpretedOptionView { identifier_value: Some(x), ..d };
            lemma_uninterpreted_option_step(d, s, k, 26u32, hl - k, v2, depth, limit);
        },
    }
}

/// Reading the field `positive_int_value` of a `UninterpretedOption` written from `o` sets it to `o`, whatever it held; nothing
/// is written, and nothing changes, for `None`.
proof fn lemma_uninterpreted_option_read_positive_int_value(d: UninterpretedOptionView, o: Option<u64>, rest: Seq<u8>, depth: nat, limit: nat)
    requires
        parts_encodable(opt_field_parts::<raw::Uint64>(4u32, o)),
    ensures
        uninterpreted_option_merged(d, parts_bytes(opt_field_parts::<raw::Uint64>(4u32, o)) + rest, depth, limit, false, None) == uninterpreted_option_merged(if o is Some { UninterpretedOptionView { positive_int_value: o, ..d } } else { d }, rest, depth, limit, false, None),
{
    match o {
        None => {
            assert(parts_bytes(opt_field_parts::<raw::Uint64>(4u32, o)) + rest =~= rest);
        },
        Some(x) => {
            let p = field_parts::<raw::Uint64>(4u32, x);
            assert(p[1].0);
            let s = parts_bytes(p) + rest;
            lemma_field_bytes_read::<raw::Uint64>(4u32, x, rest);
            lemma_tag_value(4u32, WireType::Varint);
            let hl = parts_bytes(p).len() as int;
            let k = varint_len(32u64) as int;
            let v2 = UninterpretedOptionView { positive_int_value: Some(x), ..d };
            lemma_uninterpreted_option_step(d, s, k, 32u32, hl - k, v2, depth, limit);
        },
    }
}

/// Reading the field `negative_int_value` of a `UninterpretedOption` written from `o` sets it to `o`, whatever it held; nothing
/// is written, and nothing changes, for `None`.
proof fn lemma_uninterpreted_option_read_negative_int_value(d: UninterpretedOptionView, o: Option<i64>, rest: Seq<u8>, depth: nat, limit: nat)
    requires
        parts_encodable(opt_field_parts::<raw::Int64>(5u32, o)),
    ensures
        uninterpreted_option_merged(d, parts_bytes(opt_field_parts::<raw::Int64>(5u32, o)) + rest, depth, limit, false, None) == uninterpreted_option_merged(if o is Some { UninterpretedOptionView { negative_int_value: o, ..d } } else { d }, rest, depth, limit, false, None),
{
    match o {
        None => {
            assert(parts_bytes(opt_field_parts::<raw::Int64>(5u32, o)) + rest =~= rest);
        },
        Some(x) => {
            let p = field_parts::<raw::Int64>(5u32, x);
            assert(p[1].0);
            let s = parts_bytes(p) + rest;
            lemma_field_bytes_read::<raw::Int64>(5u32, x, rest);
            lemma_tag_value(5u32, WireType::Varint);
            let hl = parts_bytes(p).len() as int;
            let k = varint_len(40u64) as int;
            let v2 = UninterpretedOptionView { negative_int_value: Some(x), ..d };
            lemma_uninterpreted_option_step(d, s, k, 40u32, hl - k, v2, depth, limit);
        },
    }
}

/// Reading the field `double_value` of a `UninterpretedOption` written from `o` sets it to `o`, whatever it held; nothing
/// is written, and nothing changes, for `None`.
proof fn lemma_uninterpreted_option_read_double_value(d: UninterpretedOptionView, o: Option<u64>, rest: Seq<u8>, depth: nat, limit: nat)
    requires
        parts_encodable(opt_field_parts::<raw::Fixed64>(6u32, o)),
    ensures
        uninterpreted_option_merged(d, parts_bytes(opt_field_parts::<raw::Fixed64>(6u32, o)) + rest, depth, limit, false, None) == uninterpreted_option_merged(if o is Some { UninterpretedOptionView { double_value: o, ..d } } else { d }, rest, depth, limit, false, None),
{
    match o {
        None => {
            assert(parts_bytes(opt_field_parts::<raw::Fixed64>(6u32, o)) + rest =~= rest);
        },
        Some(x) => {
            let p = field_parts::<raw::Fixed64>(6u32, x);
            assert(p[1].0);
            let s = parts_bytes(p) + rest;
            lemma_field_bytes_read::<raw::Fixed64>(6u32, x, rest);
            lemma_tag_value(6u32, WireType::Bit64);
            let hl = parts_bytes(p).len() as int;
            let k = varint_len(49u64) as int;
            let v2 = UninterpretedOptionView { double_value: Some(x), ..d };
            lemma_uninterpreted_option_step(d, s, k, 49u32, hl - k, v2, depth, limit);
        },
    }
}

/// Reading the field `string_value` of a `UninterpretedOption` written from `o` sets it to `o`, whatever it held; nothing
/// is written, and nothing changes, for `None`.
proof fn lemma_uninterpreted_option_read_string_value(d: UninterpretedOptionView, o: Option<Seq<u8>>, rest: Seq<u8>, depth: nat, limit: nat)
    requires
        parts_encodable(opt_field_parts::<raw::Bytes<Vec<u8>>>(7u32, o)),
    ensures
        uninterpreted_option_merged(d, parts_bytes(opt_field_parts::<raw::Bytes<Vec<u8>>>(7u32, o)) + rest, depth, limit, false, None) == uninterpreted_option_merged(if o is Some { UninterpretedOptionView { string_value: o, ..d } } else { d }, rest, depth, limit, false, None),
{
    match o {
        None => {
            assert(parts_bytes(opt_field_parts::<raw::Bytes<Vec<u8>>>(7u32, o)) + rest =~= rest);
        },
        Some(x) => {
            let p = field_parts::<raw::Bytes<Vec<u8>>>(7u32, x);
            assert(p[1].0);
            let s = parts_bytes(p) + rest;
            lemma_field_bytes_read::<raw::Bytes<Vec<u8>>>(7u32, x, rest);
            lemma_tag_value(7u32, WireType::LengthDelimited);
            let hl = parts_bytes(p).len() as int;
            let k = varint_len(58u64) as int;
            let v2 = UninterpretedOptionView { string_value: Some(x), ..d };
            lemma_uninterpreted_option_step(d, s, k, 58u32, hl - k, v2, depth, limit);
        },
    }
}

/// Reading the field `aggregate_value` of a `UninterpretedOption` written from `o` sets it to `o`, whatever it held; nothing
/// is written, and nothing changes, for `None`.
proof fn lemma_uninterpreted_option_read_aggregate_value(d: UninterpretedOptionView, o: Option<Seq<char>>, rest: Seq<u8>, depth: nat, limit: nat)
    requires
        parts_encodable(opt_field_parts::<raw::String>(8u32, o)),
    ensures
        uninterpreted_option_merged(d, parts_bytes(opt_field_parts::<raw::String>(8u32, o)) + rest, depth, limit, false, None) == uninterpreted_option_merged(if o is Some { UninterpretedOptionView { aggregate_value: o, ..d } } else { d }, rest, depth, limit, false, None),
{
    match o {
        None => {
            assert(parts_bytes(opt_field_parts::<raw::String>(8u32, o)) + rest =~= rest);
        },
        Some(x) => {
            let p = field_parts::<raw::String>(8u32, x);
            assert(p[1].0);
            let s = parts_bytes(p) + rest;
            lemma_field_bytes_read::<raw::String>(8u32, x, rest);
            lemma_tag_value(8u32, WireType::LengthDelimited);
            let hl = parts_bytes(p).len() as int;
            let k = varint_len(66u64) as int;
            let v2 = UninterpretedOptionView { aggregate_value: Some(x), ..d };
            lemma_uninterpreted_option_step(d, s, k, 66u32, hl - k, v2, depth, limit);
        },
    }
}

/// Reading unknown field values written one after the other into a `UninterpretedOption`, none with the tag
/// of one of its fields, adds them to its unknown fields.
proof fn lemma_uninterpreted_option_read_unknown(v: UninterpretedOptionView, ps: Seq<(u32, FieldValue)>, rest: Seq<u8>, depth: nat, limit: nat)
    requires
        forall|k: int| 0 <= k < ps.len() ==> value_readable(#[trigger] ps[k].0, ps[k].1) && !uninterpreted_option_known_tag(
            tag_value(ps[k].0, field_value_wire_type(ps[k].1)),
        ),
    ensures
        uninterpreted_option_merged(v, parts_bytes(pairs_parts(ps)) + rest, depth, limit, false, None) == uninterpreted_option_merged(
            UninterpretedOptionView { unknown_fields: push_pairs(v.unknown_fields, ps), ..v },
            rest,
            depth, limit, false, None,
        ),
    decreases ps.len(),
{
    if ps.len() == 0 {
        assert(parts_bytes(pairs_parts(ps)) + rest =~= rest);
    } else {
        let n = ps[0].0;
        let fv = ps[0].1;
        let tail = ps.drop_first();
        assert forall|k: int| 0 <= k < tail.len() implies value_readable(#[trigger] tail[k].0, tail[k].1) && !uninterpreted_option_known_tag(
            tag_value(tail[k].0, field_value_wire_type(tail[k].1)),
        ) by {
            assert(tail[k] == ps[k + 1]);
        }
        assert(value_readable(ps[0].0, ps[0].1));
        lemma_parts_bytes_append(field_value_parts(n, fv), pairs_parts(tail));
        let after = parts_bytes(pairs_parts(tail)) + rest;
        let s = parts_bytes(pairs_parts(ps)) + rest;
        assert(s =~= parts_bytes(field_value_parts(n, fv)) + after);
        lemma_read_value_bytes(n, fv, after);
        let t = tag_value(n, field_value_wire_type(fv));
        let hl = parts_bytes(field_value_parts(n, fv)).len() as int;
        let k = varint_len(t as u64) as int;
        let v2 = UninterpretedOptionView { unknown_fields: view_push(v.unknown_fields, n, fv), ..v };
        lemma_uninterpreted_option_step(v, s, k, t, hl - k, v2, depth, limit);
        lemma_uninterpreted_option_read_unknown(v2, tail, rest, depth, limit);
    }
}

/// The writability of the parts of a `UninterpretedOption` is that of each field's parts.
proof fn lemma_uninterpreted_option_parts_encodable(v: UninterpretedOptionView)
    ensures
        parts_encodable(uninterpreted_option_parts(v)) == (parts_encodable(name_part_seq_parts(2u32, v.name)) && parts_encodable(opt_field_parts::<raw::String>(3u32, v.identifier_value)) && parts_encodable(opt_field_parts::<raw::Uint64>(4u32, v.positive_int_value)) && parts_encodable(opt_field_parts::<raw::Int64>(5u32, v.negative_int_value)) && parts_encodable(opt_field_parts::<raw::Fixed64>(6u32, v.double_value)) && parts_encodable(opt_field_parts::<raw::Bytes<Vec<u8>>>(7u32, v.string_value)) && parts_encodable(opt_field_parts::<raw::String>(8u32, v.aggregate_value)) && parts_encodable(set_parts(v.unknown_fields))),
{
    reveal(uninterpreted_option_parts);
    let p0 = name_part_seq_parts(2u32, v.name);
    let p1 = opt_field_parts::<raw::String>(3u32, v.identifier_value);
    let p2 = opt_field_parts::<raw::Uint64>(4u32, v.positive_int_value);
    let p3 = opt_field_parts::<raw::Int64>(5u32, v.negative_int_value);
    let p4 = opt_field_parts::<raw::Fixed64>(6u32, v.double_value);
    let p5 = opt_field_parts::<raw::Bytes<Vec<u8>>>(7u32, v.string_value);
    let p6 = opt_field_parts::<raw::String>(8u32, v.aggregate_value);
    let p7 = set_parts(v.unknown_fields);
    let q7 = p7;
    let q6 = p6 + q7;
    lemma_parts_encodable_two(p6, q7);
    let q5 = p5 + q6;
    lemma_parts_encodable_two(p5, q6);
    let q4 = p4 + q5;
    lemma_parts_encodable_two(p4, q5);
    let q3 = p3 + q4;
    lemma_parts_encodable_two(p3, q4);
    let q2 = p2 + q3;
    lemma_parts_encodable_two(p2, q3);
    let q1 = p1 + q2;
    lemma_parts_encodable_two(p1, q2);
    let q0 = p0 + q1;
    lemma_parts_encodable_two(p0, q1);
    assert(uninterpreted_option_parts(v) == q0);
}

/// The bytes of the parts of a `UninterpretedOption` are those of each field's parts, one after the other.
proof fn lemma_uninterpreted_option_parts_bytes(v: UninterpretedOptionView)
    ensures
        parts_bytes(uninterpreted_option_parts(v)) == parts_bytes(name_part_seq_parts(2u32, v.name)) + (parts_bytes(opt_field_parts::<raw::String>(3u32, v.identifier_value)) + (parts_bytes(opt_field_parts::<raw::Uint64>(4u32, v.positive_int_value)) + (parts_bytes(opt_field_parts::<raw::Int64>(5u32, v.negative_int_value)) + (parts_bytes(opt_field_parts::<raw::Fixed64>(6u32, v.double_value)) + (parts_bytes(opt_field_parts::<raw::Bytes<Vec<u8>>>(7u32, v.string_value)) + (parts_bytes(opt_field_parts::<raw::String>(8u32, v.aggregate_value)) + parts_bytes(set_parts(v.unknown_fields)))))))),
{
    reveal(uninterpreted_option_parts);
    let p0 = name_part_seq_parts(2u32, v.name);
    let p1 = opt_field_parts::<raw::String>(3u32, v.identifier_value);
    let p2 = opt_field_parts::<raw::Uint64>(4u32, v.positive_int_value);
    let p3 = opt_field_parts::<raw::Int64>(5u32, v.negative_int_value);
    let p4 = opt_field_parts::<raw::Fixed64>(6u32, v.double_value);
    let p5 = opt_field_parts::<raw::Bytes<Vec<u8>>>(7u32, v.string_value);
    let p6 = opt_field_parts::<raw::String>(8u32, v.aggregate_value);
    let p7 = set_parts(v.unknown_fields);
    let q7 = p7;
    let q6 = p6 + q7;
    lemma_parts_bytes_append(p6, q7);
    let q5 = p5 + q6;
    lemma_parts_bytes_append(p5, q6);
    let q4 = p4 + q5;
    lemma_parts_bytes_append(p4, q5);
    let q3 = p3 + q4;
    lemma_parts_bytes_append(p3, q4);
    let q2 = p2 + q3;
    lemma_parts_bytes_append(p2, q3);
    let q1 = p1 + q2;
    lemma_parts_bytes_append(p1, q2);
    let q0 = p0 + q1;
    lemma_parts_bytes_append(p0, q1);
    assert(uninterpreted_option_parts(v) == q0);
}

/// The message a `UninterpretedOption` `d` becomes when `v` is merged into it: each field `v` holds once
/// replaces the one `d` holds, the values of each repeated field of `v` follow those of `d`,
/// and the unknown fields of `v` are added to those of `d`, field number by field number.
pub open spec fn uninterpreted_option_merge_view(d: UninterpretedOptionView, v: UninterpretedOptionView) -> UninterpretedOptionView {
    UninterpretedOptionView { name: d.name + v.name, identifier_value: newer_or(v.identifier_value, d.identifier_value), positive_int_value: newer_or(v.positive_int_value, d.positive_int_value), negative_int_value: newer_or(v.negative_int_value, d.negative_int_value), double_value: newer_or(v.double_value, d.double_value), string_value: newer_or(v.string_value, d.string_value), aggregate_value: newer_or(v.aggregate_value, d.aggregate_value), unknown_fields: view_merge(d.unknown_fields, v.unknown_fields) }
}

/// Reading the bytes of the parts of a `UninterpretedOption` `v`, field by field, into `d` merges `v` into `d`.
#[verifier::spinoff_prover]
#[verifier::rlimit(60)]
proof fn lemma_uninterpreted_option_merge_all(d: UninterpretedOptionView, v: UninterpretedOptionView, depth: nat, limit: nat)
    requires
        parts_encodable(name_part_seq_parts(2u32, v.name)),
        parts_encodable(opt_field_parts::<raw::String>(3u32, v.identifier_value)),
        parts_encodable(opt_field_parts::<raw::Uint64>(4u32, v.positive_int_value)),
        parts_encodable(opt_field_parts::<raw::Int64>(5u32, v.negative_int_value)),
        parts_encodable(opt_field_parts::<raw::Fixed64>(6u32, v.double_value)),
        parts_encodable(opt_field_parts::<raw::Bytes<Vec<u8>>>(7u32, v.string_value)),
        parts_encodable(opt_field_parts::<raw::String>(8u32, v.aggregate_value)),
        uninterpreted_option_roundtrips(v, depth, limit),
        parts_bytes(uninterpreted_option_parts(v)) == parts_bytes(name_part_seq_parts(2u32, v.name)) + (parts_bytes(opt_field_parts::<raw::String>(3u32, v.identifier_value)) + (parts_bytes(opt_field_parts::<raw::Uint64>(4u32, v.positive_int_value)) + (parts_bytes(opt_field_parts::<raw::Int64>(5u32, v.negative_int_value)) + (parts_bytes(opt_field_parts::<raw::Fixed64>(6u32, v.double_value)) + (parts_bytes(opt_field_parts::<raw::Bytes<Vec<u8>>>(7u32, v.string_value)) + (parts_bytes(opt_field_parts::<raw::String>(8u32, v.aggregate_value)) + parts_bytes(set_parts(v.unknown_fields)))))))),
    ensures
        uninterpreted_option_merged(d, parts_bytes(uninterpreted_option_parts(v)), depth, limit, false, None) == Ok::<UninterpretedOptionView, ReadError>(uninterpreted_option_merge_view(d, v)),
{
    let p0 = name_part_seq_parts(2u32, v.name);
    let p1 = opt_field_parts::<raw::String>(3u32, v.identifier_value);
    let p2 = opt_field_parts::<raw::Uint64>(4u32, v.positive_int_value);
    let p3 = opt_field_parts::<raw::Int64>(5u32, v.negative_int_value);
    let p4 = opt_field_parts::<raw::Fixed64>(6u32, v.double_value);
    let p5 = opt_field_parts::<raw::Bytes<Vec<u8>>>(7u32, v.string_value);
    let p6 = opt_field_parts::<raw::String>(8u32, v.aggregate_value);
    let p7 = set_parts(v.unknown_fields);
    let b0 = parts_bytes(p0);
    let b1 = parts_bytes(p1);
    let b2 = parts_bytes(p2);
    let b3 = parts_bytes(p3);
    let b4 = parts_bytes(p4);
    let b5 = parts_bytes(p5);
    let b6 = parts_bytes(p6);
    let b7 = parts_bytes(p7);
    let r7 = b7;
    let r6 = b6 + r7;
    let r5 = b5 + r6;
    let r4 = b4 + r5;
    let r3 = b3 + r4;
    let r2 = b2 + r3;
    let r1 = b1 + r2;
    let r0 = b0 + r1;
    let d0 = d;
    let d1 = UninterpretedOptionView { name: d.name + v.name, ..d0 };
    assert(uninterpreted_option_merged(d0, r0, depth, limit, false, None) == uninterpreted_option_merged(d1, r1, depth, limit, false, None)) by {
        lemma_uninterpreted_option_read_name(d0, v.name, r1, depth, limit);
        assert(UninterpretedOptionView { name: d0.name + v.name, ..d0 } == d1);
    }
    let d2 = UninterpretedOptionView { identifier_value: newer_or(v.identifier_value, d.identifier_value), ..d1 };
    assert(uninterpreted_option_merged(d1, r1, depth, limit, false, None) == uninterpreted_option_merged(d2, r2, depth, limit, false, None)) by {
        lemma_uninterpreted_option_read_identifier_value(d1, v.identifier_value, r2, depth, limit);
        assert((if v.identifier_value is Some { UninterpretedOptionView { identifier_value: v.identifier_value, ..d1 } } else { d1 }) == d2);
    }
    let d3 = UninterpretedOptionView { positive_int_value: newer_or(v.positive_int_value, d.positive_int_value), ..d2 };
    assert(uninterpreted_option_merged(d2, r2, depth, limit, false, None) == uninterpreted_option_merged(d3, r3, depth, limit, false, None)) by {
        lemma_uninterpreted_option_read_positive_int_value(d2, v.positive_int_value, r3, depth, limit);
        assert((if v.positive_int_value is Some { UninterpretedOptionView { positive_int_value: v.positive_int_value, ..d2 } } else { d2 }) == d3);
    }
    let d4 = UninterpretedOptionView { negative_int_value: newer_or(v.negative_int_value, d.negative_int_value), ..d3 };
    assert(uninterpreted_option_merged(d3, r3, depth, limit, false, None) == uninterpreted_option_merged(d4, r4, depth, limit, false, None)) by {
        lemma_uninterpreted_option_read_negative_int_value(d3, v.negative_int_value, r4, depth, limit);
        assert((if v.negative_int_value is Some { UninterpretedOptionView { negative_int_value: v.negative_int_value, ..d3 } } else { d3 }) == d4);
    }
    let d5 = UninterpretedOptionView { double_value: newer_or(v.double_value, d.double_value), ..d4 };
    assert(uninterpreted_option_merged(d4, r4, depth, limit, false, None) == uninterpreted_option_merged(d5, r5, depth, limit, false, None)) by {
        lemma_uninterpreted_option_read_double_value(d4, v.double_value, r5, depth, limit);
        assert((if v.double_value is Some { UninterpretedOptionView { double_value: v.double_value, ..d4 } } else { d4 }) == d5);
    }
    let d6 = UninterpretedOptionView { string_value: newer_or(v.string_value, d.string_value), ..d5 };
    assert(uninterpreted_option_merged(d5, r5, depth, limit, false, None) == uninterpreted_option_merged(d6, r6, depth, limit, false, None)) by {
        lemma_uninterpreted_option_read_string_value(d5, v.string_value, r6, depth, limit);
        assert((if v.string_value is Some { UninterpretedOptionView { string_value: v.string_value, ..d5 } } else { d5 }) == d6);
    }
    let d7 = UninterpretedOptionView { aggregate_value: newer_or(v.aggregate_value, d.aggregate_value), ..d6 };
    assert(uninterpreted_option_merged(d6, r6, depth, limit, false, None) == uninterpreted_option_merged(d7, r7, depth, limit, false, None)) by {
        lemma_uninterpreted_option_read_aggregate_value(d6, v.aggregate_value, r7, depth, limit);
        assert((if v.aggregate_value is Some { UninterpretedOptionView { aggregate_value: v.aggregate_value, ..d6 } } else { d6 }) == d7);
    }
    let ps = set_pairs(v.unknown_fields);
    assert(uninterpreted_option_merged(d7, r7, depth, limit, false, None) == Ok::<UninterpretedOptionView, ReadError>(uninterpreted_option_merge_view(d, v))) by {
        lemma_set_pairs(v.unknown_fields, d.unknown_fields);
        lemma_entries_readable(v.unknown_fields);
        assert forall|k: int| 0 <= k < ps.len() implies value_readable(#[trigger] ps[k].0, ps[k].1) && !uninterpreted_option_known_tag(
            tag_value(ps[k].0, field_value_wire_type(ps[k].1)),
        ) by {
            assert(!uninterpreted_option_known_tag(tag_value(set_pairs(v.unknown_fields)[k].0, field_value_wire_type(set_pairs(v.unknown_fields)[k].1))));
        }
        lemma_uninterpreted_option_read_unknown(d7, ps, Seq::empty(), depth, limit);
        assert(b7 + Seq::<u8>::empty() =~= b7);
        let dl = UninterpretedOptionView { unknown_fields: push_pairs(d7.unknown_fields, ps), ..d7 };
        assert(dl == uninterpreted_option_merge_view(d, v));
    }
}

/// Reading the bytes of the parts of a `UninterpretedOption`, field by field, gives the message back.
proof fn lemma_uninterpreted_option_read_all(v: UninterpretedOptionView, depth: nat, limit: nat)
    requires
        parts_encodable(name_part_seq_parts(2u32, v.name)),
        parts_encodable(opt_field_parts::<raw::String>(3u32, v.identifier_value)),
        parts_encodable(opt_field_parts::<raw::Uint64>(4u32, v.positive_int_value)),
        parts_encodable(opt_field_parts::<raw::Int64>(5u32, v.negative_int_value)),
        parts_encodable(opt_field_parts::<raw::Fixed64>(6u32, v.double_value)),
        parts_encodable(opt_field_parts::<raw::Bytes<Vec<u8>>>(7u32, v.string_value)),
        parts_encodable(opt_field_parts::<raw::String>(8u32, v.aggregate_value)),
        uninterpreted_option_roundtrips(v, depth, limit),
        parts_bytes(uninterpreted_option_parts(v)) == parts_bytes(name_part_seq_parts(2u32, v.name)) + (parts_bytes(opt_field_parts::<raw::String>(3u32, v.identifier_value)) + (parts_bytes(opt_field_parts::<raw::Uint64>(4u32, v.positive_int_value)) + (parts_bytes(opt_field_parts::<raw::Int64>(5u32, v.negative_int_value)) + (parts_bytes(opt_field_parts::<raw::Fixed64>(6u32, v.double_value)) + (parts_bytes(opt_field_parts::<raw::Bytes<Vec<u8>>>(7u32, v.string_value)) + (parts_bytes(opt_field_parts::<raw::String>(8u32, v.aggregate_value)) + parts_bytes(set_parts(v.unknown_fields)))))))),
    ensures
        uninterpreted_option_merged(uninterpreted_option_default(), parts_bytes(uninterpreted_option_parts(v)), depth, limit, false, None) == Ok::<UninterpretedOptionView, ReadError>(v),
{
    lemma_uninterpreted_option_merge_all(uninterpreted_option_default(), v, depth, limit);
    lemma_entries_readable(v.unknown_fields);
    lemma_merge_into_empty(v.unknown_fields);
    assert(Seq::empty() + v.name =~= v.name);
    assert(uninterpreted_option_merge_view(uninterpreted_option_default(), v) == v);
}

/// Merging what a `UninterpretedOption` `v` writes into a message `d` merges `v` into `d`: each field `v`
/// holds replaces the one `d` holds, repeated values follow those `d` holds, and unknown fields
/// are added to those of `d`, where `d` holds none of the message fields `v` holds (those are
/// merged into each other), at nesting depth `depth` of a reader with recursion limit `limit`
/// that keeps unknown fields, outside any group, where `v` is read back as written.
pub proof fn lemma_uninterpreted_option_merge_written(d: UninterpretedOptionView, v: UninterpretedOptionView, depth: nat, limit: nat)
    requires
        parts_encodable(uninterpreted_option_parts(v)),
        uninterpreted_option_roundtrips(v, depth, limit),
    ensures
        uninterpreted_option_merged(d, parts_bytes(uninterpreted_option_parts(v)), depth, limit, false, None) == Ok::<UninterpretedOptionView, ReadError>(uninterpreted_option_merge_view(d, v)),
{
    lemma_uninterpreted_option_parts_encodable(v);
    lemma_uninterpreted_option_parts_bytes(v);
    lemma_uninterpreted_option_merge_all(d, v, depth, limit);
}

/// A `UninterpretedOption` is read back as it is written: merging the bytes of its parts into a default
/// message, at nesting depth `depth` of a reader with recursion limit `limit` that keeps
/// unknown fields, outside any group, gives the message back, where it is read back as written.
pub proof fn lemma_uninterpreted_option_roundtrip(v: UninterpretedOptionView, depth: nat, limit: nat)
    requires
        parts_encodable(uninterpreted_option_parts(v)),
        uninterpreted_option_roundtrips(v, depth, limit),
    ensures
        uninterpreted_option_merged(uninterpreted_option_default(), parts_bytes(uninterpreted_option_parts(v)), depth, limit, false, None) == Ok::<UninterpretedOptionView, ReadError>(v),
{
    lemma_uninterpreted_option_parts_encodable(v);
    lemma_uninterpreted_option_parts_bytes(v);
    lemma_uninterpreted_option_read_all(v, depth, limit);
}

/// The `NamePart` message of `descriptor.proto`.
#[derive(Clone, Debug)]
pub struct NamePart {
    name_part: Option<String>,
    is_extension: Option<bool>,
    unknown_fields: UnknownFieldSet,
}

/// The view of a `NamePart`: its fields, and its unknown fields.
pub struct NamePartView {
    /// The `name_part` field.
    pub name_part: Option<Seq<char>>,
    /// The `is_extension` field.
    pub is_extension: Option<bool>,
    /// The unknown fields.
    pub unknown_fields: Seq<(u32, Seq<FieldValue>)>,
}

/// The view of a `NamePart` value.
pub closed spec fn name_part_view(m: NamePart) -> NamePartView
{
    NamePartView {
        name_part: opt_view(m.name_part),
        is_extension: m.is_extension,
        unknown_fields: m.unknown_fields@,
    }
}

/// The views of a run of `NamePart` values.
pub closed spec fn name_part_seq_view(s: Seq<NamePart>) -> Seq<NamePartView>
    decreases s,
{
    if s.len() == 0 {
        Seq::empty()
    } else {
        name_part_seq_view(s.subrange(0, s.len() - 1)).push(name_part_view(s[s.len() - 1]))
    }
}

/// The view of a `NamePart` with no field set.
pub open spec fn name_part_default() -> NamePartView {
    NamePartView {
        name_part: None,
        is_extension: None,
        unknown_fields: Seq::empty(),
    }
}

impl View for NamePart {
    type V = NamePartView;

    open spec fn view(&self) -> NamePartView {
        name_part_view(*self)
    }
}

impl Default for NamePart {
    /// A message with no field set.
    fn default() -> (r: NamePart)
        ensures
            r@ == name_part_default(),
    {
        let r = NamePart {
            name_part: None,
            is_extension: None,
            unknown_fields: UnknownFieldSet::new(),
        };
        proof {
            assert(r@ =~= name_part_default());
        }
        r
    }
}

impl NamePart {
    /// Gets the `name_part` field, or its default, the empty string.
    pub fn name_part(&self) -> (r: &str)
        ensures
            r@ == text_or_empty(self@.name_part),
    {
        proof {
            reveal_strlit("");
        }
        match &self.name_part {
            Some(s) => s.as_str(),
            None => "",
        }
    }

    /// Gets the `name_part` field if it is set.
    pub fn name_part_option(&self) -> (r: Option<&String>)
        ensures
            opt_ref_view(r) == self@.name_part,
    {
        self.name_part.as_ref()
    }

    /// Gets the `name_part` field for changing it, setting it to its type's default first if it
    /// is not set.
    pub fn name_part_mut(&mut self) -> (r: &mut String)
        ensures
            (*r)@ == old(self)@.name_part.unwrap_or(Seq::<char>::empty()),
            final(self)@ == (NamePartView { name_part: Some((*final(r))@), ..old(self)@ }),
    {
        self.name_part.get_or_insert(String::new())
    }

    /// Returns whether the `name_part` field is set.
    pub fn has_name_part(&self) -> (r: bool)
        ensures
            r == self@.name_part is Some,
    {
        self.name_part.is_some()
    }

    /// Sets the `name_part` field.
    pub fn set_name_part(&mut self, value: String)
        ensures
            final(self)@ == (NamePartView { name_part: Some(value@), ..old(self)@ }),
    {
        self.name_part = Some(value);
    }

    /// Takes the `name_part` field out, leaving it unset.
    pub fn take_name_part(&mut self) -> (r: Option<String>)
        ensures
            opt_view(r) == old(self)@.name_part,
            final(self)@ == (NamePartView { name_part: None, ..old(self)@ }),
    {
        self.name_part.take()
    }

    /// Clears the `name_part` field, leaving it unset.
    pub fn clear_name_part(&mut self)
        ensures
            final(self)@ == (NamePartView { name_part: None, ..old(self)@ }),
    {
        self.name_part = None;
    }

    /// Gets the `is_extension` field, or its default, `false`.
    pub fn is_extension(&self) -> (r: bool)
        ensures
            r == self@.is_extension.unwrap_or(false),
    {
        match self.is_extension {
            Some(v) => v,
            None => false,
        }
    }

    /// Gets the `is_extension` field if it is set.
    pub fn is_extension_option(&self) -> (r: Option<&bool>)
        ensures
            opt_ref_view(r) == self@.is_extension,
    {
        self.is_extension.as_ref()
    }

    /// Gets the `is_extension` field for changing it, setting it to its type's default first if it
    /// is not set.
    pub fn is_extension_mut(&mut self) -> (r: &mut bool)
        ensures
            (*r)@ == old(self)@.is_extension.unwrap_or(false),
            final(self)@ == (NamePartView { is_extension: Some((*final(r))@), ..old(self)@ }),
    {
        self.is_extension.get_or_insert(false)
    }

    /// Returns whether the `is_extension` field is set.
    pub fn has_is_extension(&self) -> (r: bool)
        ensures
            r == self@.is_extension is Some,
    {
        self.is_extension.is_some()
    }

    /// Sets the `is_extension` field.
    pub fn set_is_extension(&mut self, value: bool)
        ensures
            final(self)@ == (NamePartView { is_extension: Some(value@), ..old(self)@ }),
    {
        self.is_extension = Some(value);
    }

    /// Takes the `is_extension` field out, leaving it unset.
    pub fn take_is_extension(&mut self) -> (r: Option<bool>)
        ensures
            opt_view(r) == old(self)@.is_extension,
            final(self)@ == (NamePartView { is_extension: None, ..old(self)@ }),
    {
        self.is_extension.take()
    }

    /// Clears the `is_extension` field, leaving it unset.
    pub fn clear_is_extension(&mut self)
        ensures
            final(self)@ == (NamePartView { is_extension: None, ..old(self)@ }),
    {
        self.is_extension = None;
    }
}

/// The parts a `NamePart` is written as: its fields that are set, in field number order, then its
/// unknown fields.
#[verifier::opaque]
pub open spec fn name_part_parts(v: NamePartView) -> Seq<(bool, Seq<u8>)>
{
    opt_field_parts::<raw::String>(1u32, v.name_part) + (opt_field_parts::<raw::Bool>(2u32, v.is_extension) + (set_parts(v.unknown_fields)))
}

/// The parts the `NamePart` values of a repeated field with field number `num` are written as:
/// for each, its tag, its length and its parts.
pub open spec fn name_part_seq_parts(num: u32, ys: Seq<NamePartView>) -> Seq<(bool, Seq<u8>)>
    decreases ys,
{
    if ys.len() == 0 {
        Seq::empty()
    } else {
        name_part_seq_parts(num, ys.subrange(0, ys.len() - 1)) + entry_parts(num, name_part_parts(ys[ys.len() - 1]))
    }
}

/// What reading the field with tag value `t` from the front of `rest` into `v` gives: the
/// number of bytes read and the message after, or the error.
pub open spec fn name_part_field_read(v: NamePartView, t: u32, rest: Seq<u8>, depth: nat, limit: nat, skip: bool, eg: Option<Tag>) -> ReadResult<(int, NamePartView)>
{
    if t == 10u32 {
        match <raw::String as Value>::decoding(rest) { Ok((m, x)) => Ok((m, NamePartView { name_part: Some(x), ..v })), Err(e) => Err(e) }
    } else if t == 16u32 {
        match <raw::Bool as Value>::decoding(rest) { Ok((m, x)) => Ok((m, NamePartView { is_extension: Some(x), ..v })), Err(e) => Err(e) }
    } else {
        match unknown_field_read(v.unknown_fields, t, rest, depth, limit, skip, eg) {
            Ok((m, u)) => Ok((m, NamePartView { unknown_fields: u, ..v })),
            Err(e) => Err(e),
        }
    }
}

/// What reading all of `s` into `v` as `NamePart` fields gives: the message after, or the error.
/// `depth` and `limit` are the reader's depth and recursion limit, `skip` whether it skips
/// unknown fields, and `eg` the end tag of the group it is in.
pub open spec fn name_part_merged(v: NamePartView, s: Seq<u8>, depth: nat, limit: nat, skip: bool, eg: Option<Tag>) -> ReadResult<NamePartView>
    decreases s.len(),
{
    if s.len() == 0 {
        Ok(v)
    } else {
        match varint_read(s) {
            Err(e) => Err(e),
            Ok((n, w)) => if n < 1 || n > s.len() {
                Err(eof())
            } else {
                match name_part_field_read(v, w as u32, s.skip(n), depth, limit, skip, eg) {
                    Err(e) => Err(e),
                    Ok((m, v2)) => if m < 0 || n + m > s.len() {
                        Err(eof())
                    } else {
                        name_part_merged(v2, s.skip(n + m), depth, limit, skip, eg)
                    },
                }
            },
        }
    }
}

/// The views of a run of `NamePart` values, value by value.
pub proof fn lemma_name_part_seq_view(s: Seq<NamePart>)
    ensures
        name_part_seq_view(s).len() == s.len(),
        forall|i: int| 0 <= i < s.len() ==> #[trigger] name_part_seq_view(s)[i] == name_part_view(s[i]),
    decreases s.len(),
{
    if s.len() > 0 {
        lemma_name_part_seq_view(s.subrange(0, s.len() - 1));
        assert forall|i: int| 0 <= i < s.len() implies #[trigger] name_part_seq_view(s)[i] == name_part_view(s[i]) by {
            if i < s.len() - 1 {
                assert(s.subrange(0, s.len() - 1)[i] == s[i]);
            }
        }
    }
}

/// The parts of two runs of `NamePart` values are those of the first, then the second.
proof fn lemma_name_part_seq_parts_append(num: u32, a: Seq<NamePartView>, b: Seq<NamePartView>)
    ensures
        name_part_seq_parts(num, a + b) == name_part_seq_parts(num, a) + name_part_seq_parts(num, b),
    decreases b.len(),
{
    if b.len() == 0 {
        assert(a + b =~= a);
        assert(name_part_seq_parts(num, a) + name_part_seq_parts(num, b) =~= name_part_seq_parts(num, a));
    } else {
        let ab = a + b;
        assert(ab.subrange(0, ab.len() - 1) =~= a + b.subrange(0, b.len() - 1));
        assert(ab[ab.len() - 1] == b[b.len() - 1]);
        lemma_name_part_seq_parts_append(num, a, b.subrange(0, b.len() - 1));
        assert(name_part_seq_parts(num, a + b) =~= name_part_seq_parts(num, a) + name_part_seq_parts(num, b));
    }
}

/// The parts of the first `i + 1` values of a run are those of the first `i`, then the entry
/// of value `i`; and those of the whole run are those of the first `i + 1`, then the rest.
proof fn lemma_name_part_seq_parts_step(num: u32, ys: Seq<NamePartView>, i: int)
    requires
        0 <= i < ys.len(),
    ensures
        name_part_seq_parts(num, ys.take(i + 1)) == name_part_seq_parts(num, ys.take(i)) + entry_parts(num, name_part_parts(ys[i])),
        name_part_seq_parts(num, ys) == name_part_seq_parts(num, ys.take(i + 1)) + name_part_seq_parts(num, ys.skip(i + 1)),
{
    assert(ys.take(i + 1).subrange(0, i) =~= ys.take(i));
    assert(ys.take(i + 1)[i] == ys[i]);
    lemma_name_part_seq_parts_append(num, ys.take(i + 1), ys.skip(i + 1));
    assert(ys.take(i + 1) + ys.skip(i + 1) =~= ys);
}

/// The parts of `NamePart` values are those of the first value's entry, then those of the others.
proof fn lemma_name_part_seq_parts_front(num: u32, ys: Seq<NamePartView>)
    requires
        ys.len() > 0,
    ensures
        name_part_seq_parts(num, ys) == entry_parts(num, name_part_parts(ys[0])) + name_part_seq_parts(num, ys.drop_first()),
{
    let one = seq![ys[0]];
    lemma_name_part_seq_parts_append(num, one, ys.drop_first());
    assert(one + ys.drop_first() =~= ys);
    assert(one.subrange(0, 0) =~= Seq::<NamePartView>::empty());
    assert(name_part_seq_parts(num, Seq::<NamePartView>::empty()) =~= Seq::<(bool, Seq<u8>)>::empty());
    assert(one[0] == ys[0]);
    assert(name_part_seq_parts(num, one) =~= entry_parts(num, name_part_parts(ys[0])));
}

/// Adds the size of the `NamePart` values of a repeated field with field number `num`.
fn name_part_values_size(vs: &Vec<NamePart>, builder: LengthBuilder, num: FieldNumber) -> (r: Option<LengthBuilder>)
    ensures
        size_added(builder@ as int, parts_encodable(name_part_seq_parts(num@, name_part_seq_view(vs@))), parts_bytes(name_part_seq_parts(num@, name_part_seq_view(vs@))).len() as int, r),
{
    let ghost ys = name_part_seq_view(vs@);
    proof {
        lemma_name_part_seq_view(vs@);
        assert(ys.take(0) =~= Seq::<NamePartView>::empty());
    }
    let mut b = builder;
    let mut i: usize = 0;
    while i < vs.len()
        invariant
            ys == name_part_seq_view(vs@),
            ys.len() == vs@.len(),
            forall|k: int| 0 <= k < vs@.len() ==> #[trigger] ys[k] == name_part_view(vs@[k]),
            i <= vs@.len(),
            size_added(builder@ as int, parts_encodable(name_part_seq_parts(num@, ys.take(i as int))), parts_bytes(name_part_seq_parts(num@, ys.take(i as int))).len() as int, Some(b)),
        decreases vs@.len() - i,
    {
        let ghost y = ys[i as int];
        let ghost done = name_part_seq_parts(num@, ys.take(i as int));
        let ghost cur = entry_parts(num@, name_part_parts(y));
        let ghost rest = name_part_seq_parts(num@, ys.skip(i + 1));
        proof {
            lemma_name_part_seq_parts_step(num@, ys, i as int);
        }
        let len = vs[i].calculate_size();
        let r = add_entry_size(b, num, len, Ghost(name_part_parts(y)));
        proof {
            lemma_size_chain(builder@ as int, done, cur, Some(b), r);
        }
        b = match r {
            Some(b1) => b1,
            None => {
                proof {
                    lemma_size_prefix(builder@ as int, done + cur, rest);
                }
                return None;
            },
        };
        i = i + 1;
    }
    proof {
        assert(ys.take(i as int) =~= ys);
    }
    Some(b)
}

/// Writes the `NamePart` values of a repeated field with field number `num`: for each, its tag,
/// its length and its fields.
fn write_name_part_values(vs: &Vec<NamePart>, output: &mut CodedWriter, num: FieldNumber) -> (r: WriteResult)
    ensures
        (final(output).written(), r) == parts_written(old(output).written(), old(output).capacity(), name_part_seq_parts(num@, name_part_seq_view(vs@))),
        final(output).capacity() == old(output).capacity(),
        (*final(final(output).target()))@ == (*final(old(output).target()))@,
{
    let ghost ys = name_part_seq_view(vs@);
    let ghost start = output.written();
    let ghost cap = output.capacity();
    proof {
        lemma_name_part_seq_view(vs@);
        assert(ys.take(0) =~= Seq::<NamePartView>::empty());
    }
    let mut i: usize = 0;
    while i < vs.len()
        invariant
            ys == name_part_seq_view(vs@),
            ys.len() == vs@.len(),
            forall|k: int| 0 <= k < vs@.len() ==> #[trigger] ys[k] == name_part_view(vs@[k]),
            i <= vs@.len(),
            start == old(output).written(),
            cap == old(output).capacity(),
            output.capacity() == cap,
            (*final(output.target()))@ == (*final(old(output).target()))@,
            parts_written(start, cap, name_part_seq_parts(num@, ys.take(i as int))).0 == output.written(),
            parts_written(start, cap, name_part_seq_parts(num@, ys.take(i as int))).1 is Ok,
        decreases vs@.len() - i,
    {
        let ghost y = ys[i as int];
        let ghost done = name_part_seq_parts(num@, ys.take(i as int));
        let ghost head = entry_head(num@, name_part_parts(y));
        let ghost cur = head + name_part_parts(y);
        let ghost rest = name_part_seq_parts(num@, ys.skip(i + 1));
        let ghost w0 = output.written();
        proof {
            lemma_name_part_seq_parts_step(num@, ys, i as int);
            lemma_parts_written_append(start, cap, done, cur);
            lemma_parts_written_append(start, cap, done + cur, rest);
            lemma_parts_written_append(w0, cap, head, name_part_parts(y));
            reveal_with_fuel(parts_written, 3);
            assert(head.drop_first().drop_first() =~= Seq::<(bool, Seq<u8>)>::empty());
        }
        match output.write_tag(Tag::new(num, WireType::LengthDelimited)) {
            Ok(()) => {},
            Err(e) => return Err(e),
        }
        let len = match vs[i].calculate_size() {
            Some(len) => len,
            None => return Err(WriteError::ValueTooLarge),
        };
        match output.write_length(len) {
            Ok(()) => {},
            Err(e) => return Err(e),
        }
        match vs[i].write_to(output) {
            Ok(()) => {},
            Err(e) => return Err(e),
        }
        i = i + 1;
    }
    proof {
        assert(ys.take(i as int) =~= ys);
        lemma_ok_unit(parts_written(start, cap, name_part_seq_parts(num@, ys)).1);
    }
    Ok(())
}

/// Reads a `NamePart` from the reader as a length delimited value, merging it into `this`, one
/// level deeper.
fn merge_name_part_delimited(this: &mut NamePart, input: &mut CodedReader) -> (r: ReadResult<()>)
    ensures
        match length_delimited_read(old(input).available()) {
            Err(e) => r == Err::<(), ReadError>(e) && same_config(*old(input), *final(input)),
            Ok((m, b)) => if old(input).depth() >= old(input).recursion_limit() {
                r == Err::<(), ReadError>(ReadError::RecursionLimitExceeded) && same_config(*old(input), *final(input))
            } else {
                match name_part_merged(old(this)@, b, old(input).depth() + 1, old(input).recursion_limit(), skips(*old(input)), old(input).end_group_view()) {
                    Ok(y) => r is Ok && final(this)@ == y && final(input).position() == old(input).position() + m
                        && same_state(*old(input), *final(input)),
                    Err(e) => r == Err::<(), ReadError>(e) && same_config(*old(input), *final(input)),
                }
            },
        },
{
    let rem0 = input.remaining();
    let ghost s = input.available();
    let ghost start = *input;
    let length = match input.read_length() {
        Ok(l) => l,
        Err(e) => return Err(e),
    };
    let rem1 = input.remaining();
    let ghost n0 = input.position() - start.position();
    proof {
        lemma_varint_read_len(s);
        assert(input.available() =~= s.skip(n0));
    }
    let previous = match input.push_length(length) {
        Ok(p) => p,
        Err(e) => return Err(e),
    };
    let rem2 = input.remaining();
    let ghost b = s.subrange(n0, n0 + length@);
    proof {
        assert(input.available() =~= b);
        assert(length_delimited_read(s) == Ok::<(int, Seq<u8>), ReadError>((n0 + length@, b)));
    }
    let ghost pushed = *input;
    match input.increment_recursion_count() {
        Ok(()) => {},
        Err(e) => {
            input.pop_length(previous);
            return Err(e);
        },
    }
    let r = this.merge_from(input);
    let rem3 = input.remaining();
    input.decrement_recursion_count();
    input.pop_length(previous);
    r
}

impl NamePart {
    /// Gets the unknown fields of the message.
    pub fn unknown_fields(&self) -> (r: &UnknownFieldSet)
        ensures
            r@ == self@.unknown_fields,
    {
        &self.unknown_fields
    }

    /// Gets the unknown fields of the message for changing them.
    pub fn unknown_fields_mut(&mut self) -> (r: &mut UnknownFieldSet)
        ensures
            (*r)@ == old(self)@.unknown_fields,
            final(self)@ == (NamePartView { unknown_fields: (*final(r))@, ..old(self)@ }),
    {
        &mut self.unknown_fields
    }

    /// Returns whether the message is initialized: whether all its required fields are set.
    pub fn is_initialized(&self) -> (r: bool)
        ensures
            r,
    {
        true
    }

    /// Calculates the size of the message as it is written: `None` if a part cannot be
    /// written or the size does not fit in a length.
    #[verifier::spinoff_prover]
    pub fn calculate_size(&self) -> (r: Option<Length>)
        ensures
            opt_length(r) == parts_size(name_part_parts(self@)),
    {
        let ghost v = self@;
        let ghost all = name_part_parts(v);
        let b0 = LengthBuilder::new();
        let ghost d0 = Seq::<(bool, Seq<u8>)>::empty();
        proof {
            reveal(name_part_parts);
            assert(all =~= d0 + all);
        }
        let ghost p1 = opt_field_parts::<raw::String>(1u32, v.name_part);
        let ghost rest1 = opt_field_parts::<raw::Bool>(2u32, v.is_extension) + (set_parts(v.unknown_fields));
        proof {
            assert(self@.name_part == opt_inner_view::<raw::String>(self.name_part));
            assert(all == d0 + (p1 + rest1));
            assert(d0 + (p1 + rest1) =~= d0 + p1 + rest1);
        }
        let r1 = add_opt_field::<raw::String>(b0, FieldNumber::new_unchecked(1), &self.name_part);
        proof {
            lemma_size_chain(0, d0, p1, Some(b0), r1);
            if r1 is None {
                lemma_size_chain(0, d0 + p1, rest1, r1, r1);
            }
        }
        let b1 = match r1 {
            Some(b) => b,
            None => return None,
        };
        let ghost d1 = d0 + p1;
        let ghost p2 = opt_field_parts::<raw::Bool>(2u32, v.is_extension);
        let ghost rest2 = set_parts(v.unknown_fields);
        proof {
            assert(self@.is_extension == opt_inner_view::<raw::Bool>(self.is_extension));
            assert(all == d1 + (p2 + rest2));
            assert(d1 + (p2 + rest2) =~= d1 + p2 + rest2);
        }
        let r2 = add_opt_field::<raw::Bool>(b1, FieldNumber::new_unchecked(2), &self.is_extension);
        proof {
            lemma_size_chain(0, d1, p2, Some(b1), r2);
            if r2 is None {
                lemma_size_chain(0, d1 + p2, rest2, r2, r2);
            }
        }
        let b2 = match r2 {
            Some(b) => b,
            None => return None,
        };
        let ghost d2 = d1 + p2;
        let ghost p3 = set_parts(v.unknown_fields);
        let ghost rest3 = Seq::<(bool, Seq<u8>)>::empty();
        proof {
            assert(all == d2 + p3);
            assert(p3 + rest3 =~= p3);
            assert(d2 + (p3 + rest3) =~= d2 + p3 + rest3);
        }
        let r3 = self.unknown_fields.calculate_size(b2);
        proof {
            lemma_size_chain(0, d2, p3, Some(b2), r3);
            if r3 is None {
                lemma_size_chain(0, d2 + p3, rest3, r3, r3);
            }
        }
        let b3 = match r3 {
            Some(b) => b,
            None => return None,
        };
        let ghost d3 = d2 + p3;
        Some(b3.build())
    }

    /// Writes the message to the writer: its fields that are set, in field number order, then
    /// its unknown fields.
    #[verifier::spinoff_prover]
    pub fn write_to(&self, output: &mut CodedWriter) -> (r: WriteResult)
        ensures
            (final(output).written(), r) == parts_written(old(output).written(), old(output).capacity(), name_part_parts(self@)),
            final(output).capacity() == old(output).capacity(),
            (*final(final(output).target()))@ == (*final(old(output).target()))@,
    {
        let ghost v = self@;
        let ghost all = name_part_parts(v);
        let ghost start = output.written();
        let ghost cap = output.capacity();
        let ghost d0 = Seq::<(bool, Seq<u8>)>::empty();
        proof {
            reveal(name_part_parts);
            assert(all =~= d0 + all);
        }
        let ghost p1 = opt_field_parts::<raw::String>(1u32, v.name_part);
        let ghost rest1 = opt_field_parts::<raw::Bool>(2u32, v.is_extension) + (set_parts(v.unknown_fields));
        proof {
            assert(self@.name_part == opt_inner_view::<raw::String>(self.name_part));
            assert(all == d0 + (p1 + rest1));
            assert(d0 + (p1 + rest1) =~= d0 + p1 + rest1);
            lemma_parts_written_append(start, cap, d0, p1);
            lemma_parts_written_append(start, cap, d0 + p1, rest1);
        }
        match write_opt_field::<raw::String>(output, FieldNumber::new_unchecked(1), &self.name_part) {
            Ok(()) => {},
            Err(e) => return Err(e),
        }
        let ghost d1 = d0 + p1;
        let ghost p2 = opt_field_parts::<raw::Bool>(2u32, v.is_extension);
        let ghost rest2 = set_parts(v.unknown_fields);
        proof {
            assert(self@.is_extension == opt_inner_view::<raw::Bool>(self.is_extension));
            assert(all == d1 + (p2 + rest2));
            assert(d1 + (p2 + rest2) =~= d1 + p2 + rest2);
            lemma_parts_written_append(start, cap, d1, p2);
            lemma_parts_written_append(start, cap, d1 + p2, rest2);
        }
        match write_opt_field::<raw::Bool>(output, FieldNumber::new_unchecked(2), &self.is_extension) {
            Ok(()) => {},
            Err(e) => return Err(e),
        }
        let ghost d2 = d1 + p2;
        let ghost p3 = set_parts(v.unknown_fields);
        let ghost rest3 = Seq::<(bool, Seq<u8>)>::empty();
        proof {
            assert(all == d2 + p3);
            assert(p3 + rest3 =~= p3);
            assert(d2 + (p3 + rest3) =~= d2 + p3 + rest3);
            lemma_parts_written_append(start, cap, d2, p3);
            lemma_parts_written_append(start, cap, d2 + p3, rest3);
        }
        match self.unknown_fields.write_to(output) {
            Ok(()) => {},
            Err(e) => return Err(e),
        }
        let ghost d3 = d2 + p3;
        proof {
            assert(all =~= d3 + Seq::<(bool, Seq<u8>)>::empty());
            assert(all == d3);
            lemma_ok_unit(parts_written(start, cap, all).1);
        }
        Ok(())
    }

    /// Reads the value of the field whose tag value `t` was just read into the message.
    #[verifier::spinoff_prover]
    fn merge_field(&mut self, t: u32, input: &mut CodedReader) -> (r: ReadResult<()>)
        ensures
            match name_part_field_read(old(self)@, t, old(input).available(), old(input).depth(), old(input).recursion_limit(), skips(*old(input)), old(input).end_group_view()) {
                Ok((m, v2)) => r is Ok && final(self)@ == v2 && m >= 0 && final(input).position()
                    == old(input).position() + m && same_state(*old(input), *final(input)),
                Err(e) => r == Err::<(), ReadError>(e) && same_config(*old(input), *final(input)),
            },
    {
        let rem0 = input.remaining();
        let ghost rest = input.available();
        if t == 10u32 {
            proof {
                <raw::String as Value>::lemma_decoding_len(rest);
            }
            input.set_last_tag(Some(Tag::new(FieldNumber::new_unchecked(1), WireType::LengthDelimited)));
            match <raw::String as Value>::merge_from(self.name_part.get_or_insert(std::string::String::new()), input) {
                Ok(()) => {},
                Err(e) => return Err(e),
            }
        } else if t == 16u32 {
            proof {
                <raw::Bool as Value>::lemma_decoding_len(rest);
            }
            input.set_last_tag(Some(Tag::new(FieldNumber::new_unchecked(2), WireType::Varint)));
            match <raw::Bool as Value>::merge_from(self.is_extension.get_or_insert(false), input) {
                Ok(()) => {},
                Err(e) => return Err(e),
            }
        } else {
            let tag = match Tag::try_from(t) {
                Ok(tag) => tag,
                Err(_) => return Err(ReadError::InvalidTag(t)),
            };
            input.set_last_tag(Some(tag));
            match self.unknown_fields.try_add_field_from(input) {
                Ok(TryRead::Consumed) => {},
                Ok(TryRead::Yielded) => match input.skip() {
                    Ok(()) => {},
                    Err(e) => return Err(e),
                },
                Err(e) => return Err(e),
            }
        }
        let rem1 = input.remaining();
        Ok(())
    }

    /// Merges the message with fields read from the reader, up to its limit. Scalar fields
    /// read replace those set, message fields are merged, repeated fields are added to,
    /// and unknown fields are stored or skipped as the reader says. On an error the message
    /// may hold some of the fields read before it.
    #[verifier::spinoff_prover]
    #[verifier::rlimit(50)]
    pub fn merge_from(&mut self, input: &mut CodedReader) -> (r: ReadResult<()>)
        ensures
            merge_outcome(name_part_merged(old(self)@, old(input).available(), old(input).depth(), old(input).recursion_limit(), skips(*old(input)), old(input).end_group_view()), final(self)@, *old(input), *final(input), r),
    {
        let rem0 = input.remaining();
        let ghost start = *input;
        let ghost total = name_part_merged(self@, input.available(), input.depth(), input.recursion_limit(), skips(*input), input.end_group_view());
        loop
            invariant
                start == *old(input),
                same_state(start, *input),
                0 <= start.position() <= input.position(),
                input.limit_end() <= input.input().len(),
                total == name_part_merged(old(self)@, start.available(), start.depth(), start.recursion_limit(), skips(start), start.end_group_view()),
                total == name_part_merged(self@, input.available(), start.depth(), start.recursion_limit(), skips(start), start.end_group_view()),
            decreases input.available().len(),
        {
            let ghost s = input.available();
            let ghost before = *input;
            let ghost v = self@;
            let t = match input.read_field() {
                Ok(Some(t)) => t,
                Ok(None) => return Ok(()),
                Err(e) => return Err(e),
            };
            let rem1 = input.remaining();
            let ghost n = input.position() - before.position();
            proof {
                lemma_varint_read_len(s);
                assert(input.available() =~= s.skip(n));
            }
            let ghost mid = *input;
            match self.merge_field(t, input) {
                Ok(()) => {},
                Err(e) => return Err(e),
            }
            let rem2 = input.remaining();
            proof {
                let m = input.position() - mid.position();
                assert(input.available() =~= s.skip(n + m));
            }
        }
    }
}

impl crate::Message for NamePart {
    open spec fn merged(v: NamePartView, s: Seq<u8>, depth: nat, limit: nat, skip: bool, eg: Option<Tag>) -> ReadResult<NamePartView> {
        name_part_merged(v, s, depth, limit, skip, eg)
    }

    open spec fn parts(v: NamePartView) -> Seq<(bool, Seq<u8>)> {
        name_part_parts(v)
    }

    open spec fn initialized(v: NamePartView) -> bool {
        true
    }

    open spec fn unknown_fields_of(v: NamePartView) -> Seq<(u32, Seq<FieldValue>)> {
        v.unknown_fields
    }

    open spec fn with_unknown_fields(v: NamePartView, u: Seq<(u32, Seq<FieldValue>)>) -> NamePartView {
        NamePartView { unknown_fields: u, ..v }
    }

    fn merge_from(&mut self, input: &mut CodedReader) -> (r: ReadResult<()>) {
        NamePart::merge_from(self, input)
    }

    fn calculate_size(&self) -> (r: Option<Length>) {
        NamePart::calculate_size(self)
    }

    fn write_to(&self, output: &mut CodedWriter) -> (r: WriteResult) {
        NamePart::write_to(self, output)
    }

    fn is_initialized(&self) -> (r: bool) {
        NamePart::is_initialized(self)
    }

    fn unknown_fields(&self) -> (r: &UnknownFieldSet) {
        NamePart::unknown_fields(self)
    }

    fn unknown_fields_mut(&mut self) -> (r: &mut UnknownFieldSet) {
        NamePart::unknown_fields_mut(self)
    }
}

impl DebugMessage for NamePart {
    open spec fn spec_full_name() -> Seq<char> {
        "google.protobuf.UninterpretedOption.NamePart"@
    }

    open spec fn spec_name() -> Seq<char> {
        "NamePart"@
    }

    fn full_name() -> (r: &'static str) {
        "google.protobuf.UninterpretedOption.NamePart"
    }

    fn name() -> (r: &'static str) {
        "NamePart"
    }
}

/// Whether `t` is the tag of a field a `NamePart` reads.
pub open spec fn name_part_known_tag(t: u32) -> bool {
    t == 10u32 || t == 16u32
}

/// Whether a `NamePart` is read back as it is written, at nesting depth `depth` of a reader with
/// recursion limit `limit`: its messages are read back as written one level deeper, within
/// the limit; and its unknown fields are read back as written, none with the tag of one of
/// its fields.
pub open spec fn name_part_roundtrips(v: NamePartView, depth: nat, limit: nat) -> bool
{
    &&& set_readable(v.unknown_fields)
    &&& forall|k: int| 0 <= k < set_pairs(v.unknown_fields).len() ==> !name_part_known_tag(tag_value(
        #[trigger] set_pairs(v.unknown_fields)[k].0,
        field_value_wire_type(set_pairs(v.unknown_fields)[k].1),
    ))
}

/// Reading a `NamePart` field whose tag is read from the front of `s` and whose value is read after
/// it continues with the rest of `s`.
proof fn lemma_name_part_step(v: NamePartView, s: Seq<u8>, k: int, t: u32, m: int, v2: NamePartView, depth: nat, limit: nat)
    requires
        varint_read(s) == Ok::<(int, u64), ReadError>((k, t as u64)),
        1 <= k <= s.len(),
        name_part_field_read(v, t, s.skip(k), depth, limit, false, None) == Ok::<(int, NamePartView), ReadError>((m, v2)),
        0 <= m,
        k + m <= s.len(),
    ensures
        name_part_merged(v, s, depth, limit, false, None) == name_part_merged(v2, s.skip(k + m), depth, limit, false, None),
{
    assert((t as u64) as u32 == t);
}

/// Reading the field `name_part` of a `NamePart` written from `o` sets it to `o`, whatever it held; nothing
/// is written, and nothing changes, for `None`.
proof fn lemma_name_part_read_name_part(d: NamePartView, o: Option<Seq<char>>, rest: Seq<u8>, depth: nat, limit: nat)
    requires
        parts_encodable(opt_field_parts::<raw::String>(1u32, o)),
    ensures
        name_part_merged(d, parts_bytes(opt_field_parts::<raw::String>(1u32, o)) + rest, depth, limit, false, None) == name_part_merged(if o is Some { NamePartView { name_part: o, ..d } } else { d }, rest, depth, limit, false, None),
{
    match o {
        None => {
            assert(parts_bytes(opt_field_parts::<raw::String>(1u32, o)) + rest =~= rest);
        },
        Some(x) => {
            let p = field_parts::<raw::String>(1u32, x);
            assert(p[1].0);
            let s = parts_bytes(p) + rest;
            lemma_field_bytes_read::<raw::String>(1u32, x, rest);
            lemma_tag_value(1u32, WireType::LengthDelimited);
            let hl = parts_bytes(p).len() as int;
            let k = varint_len(10u64) as int;
            let v2 = NamePartView { name_part: Some(x), ..d };
            lemma_name_part_step(d, s, k, 10u32, hl - k, v2, depth, limit);
        },
    }
}

/// Reading the field `is_extension` of a `NamePart` written from `o` sets it to `o`, whatever it held; nothing
/// is written, and nothing changes, for `None`.
proof fn lemma_name_part_read_is_extension(d: NamePartView, o: Option<bool>, rest: Seq<u8>, depth: nat, limit: nat)
    requires
        parts_encodable(opt_field_parts::<raw::Bool>(2u32, o)),
    ensures
        name_part_merged(d, parts_bytes(opt_field_parts::<raw::Bool>(2u32, o)) + rest, depth, limit, false, None) == name_part_merged(if o is Some { NamePartView { is_extension: o, ..d } } else { d }, rest, depth, limit, false, None),
{
    match o {
        None => {
            assert(parts_bytes(opt_field_parts::<raw::Bool>(2u32, o)) + rest =~= rest);
        },
        Some(x) => {
            let p = field_parts::<raw::Bool>(2u32, x);
            assert(p[1].0);
            let s = parts_bytes(p) + rest;
            lemma_field_bytes_read::<raw::Bool>(2u32, x, rest);
            lemma_tag_value(2u32, WireType::Varint);
            let hl = parts_bytes(p).len() as int;
            let k = varint_len(16u64) as int;
            let v2 = NamePartView { is_extension: Some(x), ..d };
            lemma_name_part_step(d, s, k, 16u32, hl - k, v2, depth, limit);
        },
    }
}

/// Reading unknown field values written one after the other into a `NamePart`, none with the tag
/// of one of its fields, adds them to its unknown fields.
proof fn lemma_name_part_read_unknown(v: NamePartView, ps: Seq<(u32, FieldValue)>, rest: Seq<u8>, depth: nat, limit: nat)
    requires
        forall|k: int| 0 <= k < ps.len() ==> value_readable(#[trigger] ps[k].0, ps[k].1) && !name_part_known_tag(
            tag_value(ps[k].0, field_value_wire_type(ps[k].1)),
        ),
    ensures
        name_part_merged(v, parts_bytes(pairs_parts(ps)) + rest, depth, limit, false, None) == name_part_merged(
            NamePartView { unknown_fields: push_pairs(v.unknown_fields, ps), ..v },
            rest,
            depth, limit, false, None,
        ),
    decreases ps.len(),
{
    if ps.len() == 0 {
        assert(parts_bytes(pairs_parts(ps)) + rest =~= rest);
    } else {
        let n = ps[0].0;
        let fv = ps[0].1;
        let tail = ps.drop_first();
        assert forall|k: int| 0 <= k < tail.len() implies value_readable(#[trigger] tail[k].0, tail[k].1) && !name_part_known_tag(
            tag_value(tail[k].0, field_value_wire_type(tail[k].1)),
        ) by {
            assert(tail[k] == ps[k + 1]);
        }
        assert(value_readable(ps[0].0, ps[0].1));
        lemma_parts_bytes_append(field_value_parts(n, fv), pairs_parts(tail));
        let after = parts_bytes(pairs_parts(tail)) + rest;
        let s = parts_bytes(pairs_parts(ps)) + rest;
        assert(s =~= parts_bytes(field_value_parts(n, fv)) + after);
        lemma_read_value_bytes(n, fv, after);
        let t = tag_value(n, field_value_wire_type(fv));
        let hl = parts_bytes(field_value_parts(n, fv)).len() as int;
        let k = varint_len(t as u64) as int;
        let v2 = NamePartView { unknown_fields: view_push(v.unknown_fields, n, fv), ..v };
        lemma_name_part_step(v, s, k, t, hl - k, v2, depth, limit);
        lemma_name_part_read_unknown(v2, tail, rest, depth, limit);
    }
}

/// The writability of the parts of a `NamePart` is that of each field's parts.
proof fn lemma_name_part_parts_encodable(v: NamePartView)
    ensures
        parts_encodable(name_part_parts(v)) == (parts_encodable(opt_field_parts::<raw::String>(1u32, v.name_part)) && parts_encodable(opt_field_parts::<raw::Bool>(2u32, v.is_extension)) && parts_encodable(set_parts(v.unknown_fields))),
{
    reveal(name_part_parts);
    let p0 = opt_field_parts::<raw::String>(1u32, v.name_part);
    let p1 = opt_field_parts::<raw::Bool>(2u32, v.is_extension);
    let p2 = set_parts(v.unknown_fields);
    let q2 = p2;
    let q1 = p1 + q2;
    lemma_parts_encodable_two(p1, q2);
    let q0 = p0 + q1;
    lemma_parts_encodable_two(p0, q1);
    assert(name_part_parts(v) == q0);
}

/// The bytes of the parts of a `NamePart` are those of each field's parts, one after the other.
proof fn lemma_name_part_parts_bytes(v: NamePartView)
    ensures
        parts_bytes(name_part_parts(v)) == parts_bytes(opt_field_parts::<raw::String>(1u32, v.name_part)) + (parts_bytes(opt_field_parts::<raw::Bool>(2u32, v.is_extension)) + parts_bytes(set_parts(v.unknown_fields))),
{
    reveal(name_part_parts);
    let p0 = opt_field_parts::<raw::String>(1u32, v.name_part);
    let p1 = opt_field_parts::<raw::Bool>(2u32, v.is_extension);
    let p2 = set_parts(v.unknown_fields);
    let q2 = p2;
    let q1 = p1 + q2;
    lemma_parts_bytes_append(p1, q2);
    let q0 = p0 + q1;
    lemma_parts_bytes_append(p0, q1);
    assert(name_part_parts(v) == q0);
}

/// The message a `NamePart` `d` becomes when `v` is merged into it: each field `v` holds once
/// replaces the one `d` holds, the values of each repeated field of `v` follow those of `d`,
/// and the unknown fields of `v` are added to those of `d`, field number by field number.
pub open spec fn name_part_merge_view(d: NamePartView, v: NamePartView) -> NamePartView {
    NamePartView { name_part: newer_or(v.name_part, d.name_part), is_extension: newer_or(v.is_extension, d.is_extension), unknown_fields: view_merge(d.unknown_fields, v.unknown_fields) }
}

/// Reading the bytes of the parts of a `NamePart` `v`, field by field, into `d` merges `v` into `d`.
#[verifier::spinoff_prover]
#[verifier::rlimit(60)]
proof fn lemma_name_part_merge_all(d: NamePartView, v: NamePartView, depth: nat, limit: nat)
    requires
        parts_encodable(opt_field_parts::<raw::String>(1u32, v.name_part)),
        parts_encodable(opt_field_parts::<raw::Bool>(2u32, v.is_extension)),
        name_part_roundtrips(v, depth, limit),
        parts_bytes(name_part_parts(v)) == parts_bytes(opt_field_parts::<raw::String>(1u32, v.name_part)) + (parts_bytes(opt_field_parts::<raw::Bool>(2u32, v.is_extension)) + parts_bytes(set_parts(v.unknown_fields))),
    ensures
        name_part_merged(d, parts_bytes(name_part_parts(v)), depth, limit, false, None) == Ok::<NamePartView, ReadError>(name_part_merge_view(d, v)),
{
    let p0 = opt_field_parts::<raw::String>(1u32, v.name_part);
    let p1 = opt_field_parts::<raw::Bool>(2u32, v.is_extension);
    let p2 = set_parts(v.unknown_fields);
    let b0 = parts_bytes(p0);
    let b1 = parts_bytes(p1);
    let b2 = parts_bytes(p2);
    let r2 = b2;
    let r1 = b1 + r2;
    let r0 = b0 + r1;
    let d0 = d;
    let d1 = NamePartView { name_part: newer_or(v.name_part, d.name_part), ..d0 };
    assert(name_part_merged(d0, r0, depth, limit, false, None) == name_part_merged(d1, r1, depth, limit, false, None)) by {
        lemma_name_part_read_name_part(d0, v.name_part, r1, depth, limit);
        assert((if v.name_part is Some { NamePartView { name_part: v.name_part, ..d0 } } else { d0 }) == d1);
    }
    let d2 = NamePartView { is_extension: newer_or(v.is_extension, d.is_extension), ..d1 };
    assert(name_part_merged(d1, r1, depth, limit, false, None) == name_part_merged(d2, r2, depth, limit, false, None)) by {
        lemma_name_part_read_is_extension(d1, v.is_extension, r2, depth, limit);
        assert((if v.is_extension is Some { NamePartView { is_extension: v.is_extension, ..d1 } } else { d1 }) == d2);
    }
    let ps = set_pairs(v.unknown_fields);
    assert(name_part_merged(d2, r2, depth, limit, false, None) == Ok::<NamePartView, ReadError>(name_part_merge_view(d, v))) by {
        lemma_set_pairs(v.unknown_fields, d.unknown_fields);
        lemma_entries_readable(v.unknown_fields);
        assert forall|k: int| 0 <= k < ps.len() implies value_readable(#[trigger] ps[k].0, ps[k].1) && !name_part_known_tag(
            tag_value(ps[k].0, field_value_wire_type(ps[k].1)),
        ) by {
            assert(!name_part_known_tag(tag_value(set_pairs(v.unknown_fields)[k].0, field_value_wire_type(set_pairs(v.unknown_fields)[k].1))));
        }
        lemma_name_part_read_unknown(d2, ps, Seq::empty(), depth, limit);
        assert(b2 + Seq::<u8>::empty() =~= b2);
        let dl = NamePartView { unknown_fields: push_pairs(d2.unknown_fields, ps), ..d2 };
        assert(dl == name_part_merge_view(d, v));
    }
}

/// Reading the bytes of the parts of a `NamePart`, field by field, gives the message back.
proof fn lemma_name_part_read_all(v: NamePartView, depth: nat, limit: nat)
    requires
        parts_encodable(opt_field_parts::<raw::String>(1u32, v.name_part)),
        parts_encodable(opt_field_parts::<raw::Bool>(2u32, v.is_extension)),
        name_part_roundtrips(v, depth, limit),
        parts_bytes(name_part_parts(v)) == parts_bytes(opt_field_parts::<raw::String>(1u32, v.name_part)) + (parts_bytes(opt_field_parts::<raw::Bool>(2u32, v.is_extension)) + parts_bytes(set_parts(v.unknown_fields))),
    ensures
        name_part_merged(name_part_default(), parts_bytes(name_part_parts(v)), depth, limit, false, None) == Ok::<NamePartView, ReadError>(v),
{
    lemma_name_part_merge_all(name_part_default(), v, depth, limit);
    lemma_entries_readable(v.unknown_fields);
    lemma_merge_into_empty(v.unknown_fields);
    assert(name_part_merge_view(name_part_default(), v) == v);
}

/// Merging what a `NamePart` `v` writes into a message `d` merges `v` into `d`: each field `v`
/// holds replaces the one `d` holds, repeated values follow those `d` holds, and unknown fields
/// are added to those of `d`, where `d` holds none of the message fields `v` holds (those are
/// merged into each other), at nesting depth `depth` of a reader with recursion limit `limit`
/// that keeps unknown fields, outside any group, where `v` is read back as written.
pub proof fn lemma_name_part_merge_written(d: NamePartView, v: NamePartView, depth: nat, limit: nat)
    requires
        parts_encodable(name_part_parts(v)),
        name_part_roundtrips(v, depth, limit),
    ensures
        name_part_merged(d, parts_bytes(name_part_parts(v)), depth, limit, false, None) == Ok::<NamePartView, ReadError>(name_part_merge_view(d, v)),
{
    lemma_name_part_parts_encodable(v);
    lemma_name_part_parts_bytes(v);
    lemma_name_part_merge_all(d, v, depth, limit);
}

/// A `NamePart` is read back as it is written: merging the bytes of its parts into a default
/// message, at nesting depth `depth` of a reader with recursion limit `limit` that keeps
/// unknown fields, outside any group, gives the message back, where it is read back as written.
pub proof fn lemma_name_part_roundtrip(v: NamePartView, depth: nat, limit: nat)
    requires
        parts_encodable(name_part_parts(v)),
        name_part_roundtrips(v, depth, limit),
    ensures
        name_part_merged(name_part_default(), parts_bytes(name_part_parts(v)), depth, limit, false, None) == Ok::<NamePartView, ReadError>(v),
{
    lemma_name_part_parts_encodable(v);
    lemma_name_part_parts_bytes(v);
    lemma_name_part_read_all(v, depth, limit);
}

/// The `SourceCodeInfo` message of `descriptor.proto`.
#[derive(Clone, Debug)]
pub struct SourceCodeInfo {
    location: RepeatedField<Location>,
    unknown_fields: UnknownFieldSet,
}

/// The view of a `SourceCodeInfo`: its fields, and its unknown fields.
pub struct SourceCodeInfoView {
    /// The `location` field.
    pub location: Seq<LocationView>,
    /// The unknown fields.
    pub unknown_fields: Seq<(u32, Seq<FieldValue>)>,
}

/// The view of a `SourceCodeInfo` value.
pub closed spec fn source_code_info_view(m: SourceCodeInfo) -> SourceCodeInfoView
{
    SourceCodeInfoView {
        location: location_seq_view(m.location@),
        unknown_fields: m.unknown_fields@,
    }
}

/// The view of a `SourceCodeInfo` with no field set.
pub open spec fn source_code_info_default() -> SourceCodeInfoView {
    SourceCodeInfoView {
        location: Seq::empty(),
        unknown_fields: Seq::empty(),
    }
}

impl View for SourceCodeInfo {
    type V = SourceCodeInfoView;

    open spec fn view(&self) -> SourceCodeInfoView {
        source_code_info_view(*self)
    }
}

impl Default for SourceCodeInfo {
    /// A message with no field set.
    fn default() -> (r: SourceCodeInfo)
        ensures
            r@ == source_code_info_default(),
    {
        let r = SourceCodeInfo {
            location: Vec::new(),
            unknown_fields: UnknownFieldSet::new(),
        };
        proof {
            assert(location_seq_view(r.location@) =~= Seq::empty());
            assert(r@ =~= source_code_info_default());
        }
        r
    }
}

impl SourceCodeInfo {
    /// Gets the values of the `location` field.
    pub fn location(&self) -> (r: &RepeatedField<Location>)
        ensures
            location_seq_view(r@) == self@.location,
    {
        &self.location
    }

    /// Gets the values of the `location` field for changing them.
    pub fn location_mut(&mut self) -> (r: &mut RepeatedField<Location>)
        ensures
            location_seq_view((*r)@) == old(self)@.location,
            final(self)@ == (SourceCodeInfoView { location: location_seq_view((*final(r))@), ..old(self)@ }),
    {
        &mut self.location
    }
}

/// The parts a `SourceCodeInfo` is written as: its fields that are set, in field number order, then its
/// unknown fields.
#[verifier::opaque]
pub open spec fn source_code_info_parts(v: SourceCodeInfoView) -> Seq<(bool, Seq<u8>)>
{
    location_seq_parts(1u32, v.location) + (set_parts(v.unknown_fields))
}

/// What reading the field with tag value `t` from the front of `rest` into `v` gives: the
/// number of bytes read and the message after, or the error.
pub open spec fn source_code_info_field_read(v: SourceCodeInfoView, t: u32, rest: Seq<u8>, depth: nat, limit: nat, skip: bool, eg: Option<Tag>) -> ReadResult<(int, SourceCodeInfoView)>
{
    if t == 10u32 {
        match length_delimited_read(rest) { Err(e) => Err(e), Ok((m, b)) => if depth >= limit { Err(ReadError::RecursionLimitExceeded) } else { match location_merged(location_default(), b, depth + 1, limit, skip, eg) { Ok(y) => Ok((m, SourceCodeInfoView { location: v.location.push(y), ..v })), Err(e) => Err(e) } } }
    } else {
        match unknown_field_read(v.unknown_fields, t, rest, depth, limit, skip, eg) {
            Ok((m, u)) => Ok((m, SourceCodeInfoView { unknown_fields: u, ..v })),
            Err(e) => Err(e),
        }
    }
}

/// What reading all of `s` into `v` as `SourceCodeInfo` fields gives: the message after, or the error.
/// `depth` and `limit` are the reader's depth and recursion limit, `skip` whether it skips
/// unknown fields, and `eg` the end tag of the group it is in.
pub open spec fn source_code_info_merged(v: SourceCodeInfoView, s: Seq<u8>, depth: nat, limit: nat, skip: bool, eg: Option<Tag>) -> ReadResult<SourceCodeInfoView>
    decreases s.len(),
{
    if s.len() == 0 {
        Ok(v)
    } else {
        match varint_read(s) {
            Err(e) => Err(e),
            Ok((n, w)) => if n < 1 || n > s.len() {
                Err(eof())
            } else {
                match source_code_info_field_read(v, w as u32, s.skip(n), depth, limit, skip, eg) {
                    Err(e) => Err(e),
                    Ok((m, v2)) => if m < 0 || n + m > s.len() {
                        Err(eof())
                    } else {
                        source_code_info_merged(v2, s.skip(n + m), depth, limit, skip, eg)
                    },
                }
            },
        }
    }
}

/// Reads a `SourceCodeInfo` from the reader as a length delimited value, merging it into `this`, one
/// level deeper.
fn merge_source_code_info_delimited(this: &mut SourceCodeInfo, input: &mut CodedReader) -> (r: ReadResult<()>)
    ensures
        match length_delimited_read(old(input).available()) {
            Err(e) => r == Err::<(), ReadError>(e) && same_config(*old(input), *final(input)),
            Ok((m, b)) => if old(input).depth() >= old(input).recursion_limit() {
                r == Err::<(), ReadError>(ReadError::RecursionLimitExceeded) && same_config(*old(input), *final(input))
            } else {
                match source_code_info_merged(old(this)@, b, old(input).depth() + 1, old(input).recursion_limit(), skips(*old(input)), old(input).end_group_view()) {
                    Ok(y) => r is Ok && final(this)@ == y && final(input).position() == old(input).position() + m
                        && same_state(*old(input), *final(input)),
                    Err(e) => r == Err::<(), ReadError>(e) && same_config(*old(input), *final(input)),
                }
            },
        },
{
    let rem0 = input.remaining();
    let ghost s = input.available();
    let ghost start = *input;
    let length = match input.read_length() {
        Ok(l) => l,
        Err(e) => return Err(e),
    };
    let rem1 = input.remaining();
    let ghost n0 = input.position() - start.position();
    proof {
        lemma_varint_read_len(s);
        assert(input.available() =~= s.skip(n0));
    }
    let previous = match input.push_length(length) {
        Ok(p) => p,
        Err(e) => return Err(e),
    };
    let rem2 = input.remaining();
    let ghost b = s.subrange(n0, n0 + length@);
    proof {
        assert(input.available() =~= b);
        assert(length_delimited_read(s) == Ok::<(int, Seq<u8>), ReadError>((n0 + length@, b)));
    }
    let ghost pushed = *input;
    match input.increment_recursion_count() {
        Ok(()) => {},
        Err(e) => {
            input.pop_length(previous);
            return Err(e);
        },
    }
    let r = this.merge_from(input);
    let rem3 = input.remaining();
    input.decrement_recursion_count();
    input.pop_length(previous);
    r
}

/// The parts an optional `SourceCodeInfo` field with field number `num` is written as: nothing where it
/// is not set, else its tag, its length and its parts.
pub open spec fn source_code_info_opt_parts(num: u32, o: Option<SourceCodeInfoView>) -> Seq<(bool, Seq<u8>)> {
    match o {
        Some(y) => entry_parts(num, source_code_info_parts(y)),
        None => Seq::empty(),
    }
}

/// Adds the size of an optional `SourceCodeInfo` field with field number `num` to the builder.
fn source_code_info_opt_size(o: &Option<SourceCodeInfo>, b: LengthBuilder, num: FieldNumber) -> (r: Option<LengthBuilder>)
    ensures
        size_added(b@ as int, parts_encodable(source_code_info_opt_parts(num@, opt_view(*o))), parts_bytes(source_code_info_opt_parts(num@, opt_view(*o))).len() as int, r),
{
    match o {
        Some(y) => {
            let len = y.calculate_size();
            add_entry_size(b, num, len, Ghost(source_code_info_parts(y@)))
        },
        None => {
            proof {
                assert(parts_encodable(Seq::<(bool, Seq<u8>)>::empty()));
                assert(parts_bytes(Seq::<(bool, Seq<u8>)>::empty()).len() == 0);
            }
            Some(b)
        },
    }
}

/// Writes an optional `SourceCodeInfo` field with field number `num`: nothing where it is not set, else
/// its tag, its length and its fields.
fn write_source_code_info_opt(o: &Option<SourceCodeInfo>, output: &mut CodedWriter, num: FieldNumber) -> (r: WriteResult)
    ensures
        (final(output).written(), r) == parts_written(old(output).written(), old(output).capacity(), source_code_info_opt_parts(num@, opt_view(*o))),
        final(output).capacity() == old(output).capacity(),
        (*final(final(output).target()))@ == (*final(old(output).target()))@,
{
    match o {
        Some(y) => {
            let ghost p = source_code_info_parts(y@);
            let ghost head = entry_head(num@, p);
            let ghost w0 = output.written();
            let ghost cap = output.capacity();
            proof {
                lemma_parts_written_append(w0, cap, head, p);
                reveal_with_fuel(parts_written, 3);
                assert(head.drop_first().drop_first() =~= Seq::<(bool, Seq<u8>)>::empty());
                lemma_varint_roundtrip(tag_value(num@, WireType::LengthDelimited) as u64);
            }
            match output.write_tag(Tag::new(num, WireType::LengthDelimited)) {
                Ok(()) => {},
                Err(e) => return Err(e),
            }
            let len = match y.calculate_size() {
                Some(len) => len,
                None => return Err(WriteError::ValueTooLarge),
            };
            proof {
                lemma_varint_roundtrip(len@ as u64);
            }
            match output.write_length(len) {
                Ok(()) => {},
                Err(e) => return Err(e),
            }
            y.write_to(output)
        },
        None => Ok(()),
    }
}

impl SourceCodeInfo {
    /// Gets the unknown fields of the message.
    pub fn unknown_fields(&self) -> (r: &UnknownFieldSet)
        ensures
            r@ == self@.unknown_fields,
    {
        &self.unknown_fields
    }

    /// Gets the unknown fields of the message for changing them.
    pub fn unknown_fields_mut(&mut self) -> (r: &mut UnknownFieldSet)
        ensures
            (*r)@ == old(self)@.unknown_fields,
            final(self)@ == (SourceCodeInfoView { unknown_fields: (*final(r))@, ..old(self)@ }),
    {
        &mut self.unknown_fields
    }

    /// Returns whether the message is initialized: whether all its required fields are set.
    pub fn is_initialized(&self) -> (r: bool)
        ensures
            r,
    {
        if !crate::is_initialized(&self.location) {
            return false;
        }
        true
    }

    /// Calculates the size of the message as it is written: `None` if a part cannot be
    /// written or the size does not fit in a length.
    #[verifier::spinoff_prover]
    pub fn calculate_size(&self) -> (r: Option<Length>)
        ensures
            opt_length(r) == parts_size(source_code_info_parts(self@)),
    {
        let ghost v = self@;
        let ghost all = source_code_info_parts(v);
        let b0 = LengthBuilder::new();
        let ghost d0 = Seq::<(bool, Seq<u8>)>::empty();
        proof {
            reveal(source_code_info_parts);
            assert(all =~= d0 + all);
        }
        let ghost p1 = location_seq_parts(1u32, v.location);
        let ghost rest1 = set_parts(v.unknown_fields);
        proof {
            assert(all == d0 + (p1 + rest1));
            assert(d0 + (p1 + rest1) =~= d0 + p1 + rest1);
        }
        let r1 = location_values_size(&self.location, b0, FieldNumber::new_unchecked(1));
        proof {
            lemma_size_chain(0, d0, p1, Some(b0), r1);
            if r1 is None {
                lemma_size_chain(0, d0 + p1, rest1, r1, r1);
            }
        }
        let b1 = match r1 {
            Some(b) => b,
            None => return None,
        };
        let ghost d1 = d0 + p1;
        let ghost p2 = set_parts(v.unknown_fields);
        let ghost rest2 = Seq::<(bool, Seq<u8>)>::empty();
        proof {
            assert(all == d1 + p2);
            assert(p2 + rest2 =~= p2);
            assert(d1 + (p2 + rest2) =~= d1 + p2 + rest2);
        }
        let r2 = self.unknown_fields.calculate_size(b1);
        proof {
            lemma_size_chain(0, d1, p2, Some(b1), r2);
            if r2 is None {
                lemma_size_chain(0, d1 + p2, rest2, r2, r2);
            }
        }
        let b2 = match r2 {
            Some(b) => b,
            None => return None,
        };
        let ghost d2 = d1 + p2;
        Some(b2.build())
    }

    /// Writes the message to the writer: its fields that are set, in field number order, then
    /// its unknown fields.
    #[verifier::spinoff_prover]
    pub fn write_to(&self, output: &mut CodedWriter) -> (r: WriteResult)
        ensures
            (final(output).written(), r) == parts_written(old(output).written(), old(output).capacity(), source_code_info_parts(self@)),
            final(output).capacity() == old(output).capacity(),
            (*final(final(output).target()))@ == (*final(old(output).target()))@,
    {
        let ghost v = self@;
        let ghost all = source_code_info_parts(v);
        let ghost start = output.written();
        let ghost cap = output.capacity();
        let ghost d0 = Seq::<(bool, Seq<u8>)>::empty();
        proof {
            reveal(source_code_info_parts);
            assert(all =~= d0 + all);
        }
        let ghost p1 = location_seq_parts(1u32, v.location);
        let ghost rest1 = set_parts(v.unknown_fields);
        proof {
            assert(all == d0 + (p1 + rest1));
            assert(d0 + (p1 + rest1) =~= d0 + p1 + rest1);
            lemma_parts_written_append(start, cap, d0, p1);
            lemma_parts_written_append(start, cap, d0 + p1, rest1);
        }
        match write_location_values(&self.location, output, FieldNumber::new_unchecked(1)) {
            Ok(()) => {},
            Err(e) => return Err(e),
        }
        let ghost d1 = d0 + p1;
        let ghost p2 = set_parts(v.unknown_fields);
        let ghost rest2 = Seq::<(bool, Seq<u8>)>::empty();
        proof {
            assert(all == d1 + p2);
            assert(p2 + rest2 =~= p2);
            assert(d1 + (p2 + rest2) =~= d1 + p2 + rest2);
            lemma_parts_written_append(start, cap, d1, p2);
            lemma_parts_written_append(start, cap, d1 + p2, rest2);
        }
        match self.unknown_fields.write_to(output) {
            Ok(()) => {},
            Err(e) => return Err(e),
        }
        let ghost d2 = d1 + p2;
        proof {
            assert(all =~= d2 + Seq::<(bool, Seq<u8>)>::empty());
            assert(all == d2);
            lemma_ok_unit(parts_written(start, cap, all).1);
        }
        Ok(())
    }

    /// Reads the value of the field whose tag value `t` was just read into the message.
    #[verifier::spinoff_prover]
    fn merge_field(&mut self, t: u32, input: &mut CodedReader) -> (r: ReadResult<()>)
        ensures
            match source_code_info_field_read(old(self)@, t, old(input).available(), old(input).depth(), old(input).recursion_limit(), skips(*old(input)), old(input).end_group_view()) {
                Ok((m, v2)) => r is Ok && final(self)@ == v2 && m >= 0 && final(input).position()
                    == old(input).position() + m && same_state(*old(input), *final(input)),
                Err(e) => r == Err::<(), ReadError>(e) && same_config(*old(input), *final(input)),
            },
    {
        let rem0 = input.remaining();
        let ghost rest = input.available();
        if t == 10u32 {
            proof {
                lemma_length_delimited_read_len(rest);
            }
            input.set_last_tag(Some(Tag::new(FieldNumber::new_unchecked(1), WireType::LengthDelimited)));
            let mut y = Location::default();
            match merge_location_delimited(&mut y, input) {
                Ok(()) => {},
                Err(e) => return Err(e),
            }
            let ghost old_values = self.location@;
            self.location.push(y);
            proof {
                assert(self.location@.subrange(0, self.location@.len() - 1) =~= old_values);
            }
        } else {
            let tag = match Tag::try_from(t) {
                Ok(tag) => tag,
                Err(_) => return Err(ReadError::InvalidTag(t)),
            };
            input.set_last_tag(Some(tag));
            match self.unknown_fields.try_add_field_from(input) {
                Ok(TryRead::Consumed) => {},
                Ok(TryRead::Yielded) => match input.skip() {
                    Ok(()) => {},
                    Err(e) => return Err(e),
                },
                Err(e) => return Err(e),
            }
        }
        let rem1 = input.remaining();
        Ok(())
    }

    /// Merges the message with fields read from the reader, up to its limit. Scalar fields
    /// read replace those set, message fields are merged, repeated fields are added to,
    /// and unknown fields are stored or skipped as the reader says. On an error the message
    /// may hold some of the fields read before it.
    #[verifier::spinoff_prover]
    #[verifier::rlimit(50)]
    pub fn merge_from(&mut self, input: &mut CodedReader) -> (r: ReadResult<()>)
        ensures
            merge_outcome(source_code_info_merged(old(self)@, old(input).available(), old(input).depth(), old(input).recursion_limit(), skips(*old(input)), old(input).end_group_view()), final(self)@, *old(input), *final(input), r),
    {
        let rem0 = input.remaining();
        let ghost start = *input;
        let ghost total = source_code_info_merged(self@, input.available(), input.depth(), input.recursion_limit(), skips(*input), input.end_group_view());
        loop
            invariant
                start == *old(input),
                same_state(start, *input),
                0 <= start.position() <= input.position(),
                input.limit_end() <= input.input().len(),
                total == source_code_info_merged(old(self)@, start.available(), start.depth(), start.recursion_limit(), skips(start), start.end_group_view()),
                total == source_code_info_merged(self@, input.available(), start.depth(), start.recursion_limit(), skips(start), start.end_group_view()),
            decreases input.available().len(),
        {
            let ghost s = input.available();
            let ghost before = *input;
            let ghost v = self@;
            let t = match input.read_field() {
                Ok(Some(t)) => t,
                Ok(None) => return Ok(()),
                Err(e) => return Err(e),
            };
            let rem1 = input.remaining();
            let ghost n = input.position() - before.position();
            proof {
                lemma_varint_read_len(s);
                assert(input.available() =~= s.skip(n));
            }
            let ghost mid = *input;
            match self.merge_field(t, input) {
                Ok(()) => {},
                Err(e) => return Err(e),
            }
            let rem2 = input.remaining();
            proof {
                let m = input.position() - mid.position();
                assert(input.available() =~= s.skip(n + m));
            }
        }
    }
}

impl crate::Message for SourceCodeInfo {
    open spec fn merged(v: SourceCodeInfoView, s: Seq<u8>, depth: nat, limit: nat, skip: bool, eg: Option<Tag>) -> ReadResult<SourceCodeInfoView> {
        source_code_info_merged(v, s, depth, limit, skip, eg)
    }

    open spec fn parts(v: SourceCodeInfoView) -> Seq<(bool, Seq<u8>)> {
        source_code_info_parts(v)
    }

    open spec fn initialized(v: SourceCodeInfoView) -> bool {
        true
    }

    open spec fn unknown_fields_of(v: SourceCodeInfoView) -> Seq<(u32, Seq<FieldValue>)> {
        v.unknown_fields
    }

    open spec fn with_unknown_fields(v: SourceCodeInfoView, u: Seq<(u32, Seq<FieldValue>)>) -> SourceCodeInfoView {
        SourceCodeInfoView { unknown_fields: u, ..v }
    }

    fn merge_from(&mut self, input: &mut CodedReader) -> (r: ReadResult<()>) {
        SourceCodeInfo::merge_from(self, input)
    }

    fn calculate_size(&self) -> (r: Option<Length>) {
        SourceCodeInfo::calculate_size(self)
    }

    fn write_to(&self, output: &mut CodedWriter) -> (r: WriteResult) {
        SourceCodeInfo::write_to(self, output)
    }

    fn is_initialized(&self) -> (r: bool) {
        SourceCodeInfo::is_initialized(self)
    }

    fn unknown_fields(&self) -> (r: &UnknownFieldSet) {
        SourceCodeInfo::unknown_fields(self)
    }

    fn unknown_fields_mut(&mut self) -> (r: &mut UnknownFieldSet) {
        SourceCodeInfo::unknown_fields_mut(self)
    }
}

impl DebugMessage for SourceCodeInfo {
    open spec fn spec_full_name() -> Seq<char> {
        "google.protobuf.SourceCodeInfo"@
    }

    open spec fn spec_name() -> Seq<char> {
        "SourceCodeInfo"@
    }

    fn full_name() -> (r: &'static str) {
        "google.protobuf.SourceCodeInfo"
    }

    fn name() -> (r: &'static str) {
        "SourceCodeInfo"
    }
}

/// Whether `t` is the tag of a field a `SourceCodeInfo` reads.
pub open spec fn source_code_info_known_tag(t: u32) -> bool {
    t == 10u32
}

/// Whether a `SourceCodeInfo` is read back as it is written, at nesting depth `depth` of a reader with
/// recursion limit `limit`: its messages are read back as written one level deeper, within
/// the limit; and its unknown fields are read back as written, none with the tag of one of
/// its fields.
pub open spec fn source_code_info_roundtrips(v: SourceCodeInfoView, depth: nat, limit: nat) -> bool
{
    &&& (v.location.len() > 0 ==> depth < limit)
    &&& forall|i: int| 0 <= i < v.location.len() ==> location_roundtrips(#[trigger] v.location[i], depth + 1, limit)
    &&& set_readable(v.unknown_fields)
    &&& forall|k: int| 0 <= k < set_pairs(v.unknown_fields).len() ==> !source_code_info_known_tag(tag_value(
        #[trigger] set_pairs(v.unknown_fields)[k].0,
        field_value_wire_type(set_pairs(v.unknown_fields)[k].1),
    ))
}

/// Reading a `SourceCodeInfo` field whose tag is read from the front of `s` and whose value is read after
/// it continues with the rest of `s`.
proof fn lemma_source_code_info_step(v: SourceCodeInfoView, s: Seq<u8>, k: int, t: u32, m: int, v2: SourceCodeInfoView, depth: nat, limit: nat)
    requires
        varint_read(s) == Ok::<(int, u64), ReadError>((k, t as u64)),
        1 <= k <= s.len(),
        source_code_info_field_read(v, t, s.skip(k), depth, limit, false, None) == Ok::<(int, SourceCodeInfoView), ReadError>((m, v2)),
        0 <= m,
        k + m <= s.len(),
    ensures
        source_code_info_merged(v, s, depth, limit, false, None) == source_code_info_merged(v2, s.skip(k + m), depth, limit, false, None),
{
    assert((t as u64) as u32 == t);
}

/// Reading the entries of `Location` values written as field `location` of a `SourceCodeInfo` adds the values.
#[verifier::spinoff_prover]
#[verifier::rlimit(60)]
proof fn lemma_source_code_info_read_location(v: SourceCodeInfoView, ys: Seq<LocationView>, rest: Seq<u8>, depth: nat, limit: nat)
    requires
        parts_encodable(location_seq_parts(1u32, ys)),
        ys.len() > 0 ==> depth < limit,
        forall|i: int| 0 <= i < ys.len() ==> location_roundtrips(#[trigger] ys[i], depth + 1, limit),
    ensures
        source_code_info_merged(v, parts_bytes(location_seq_parts(1u32, ys)) + rest, depth, limit, false, None) == source_code_info_merged(
            SourceCodeInfoView { location: v.location + ys, ..v },
            rest,
            depth, limit, false, None,
        ),
    decreases ys.len(),
{
    if ys.len() == 0 {
        assert(parts_bytes(location_seq_parts(1u32, ys)) + rest =~= rest);
        assert(v.location + ys =~= v.location);
    } else {
        let y = ys[0];
        let tail = ys.drop_first();
        assert forall|i: int| 0 <= i < tail.len() implies location_roundtrips(#[trigger] tail[i], depth + 1, limit) by {
            assert(tail[i] == ys[i + 1]);
        }
        lemma_location_seq_parts_front(1u32, ys);
        let ep = entry_parts(1u32, location_parts(y));
        lemma_parts_encodable_two(ep, location_seq_parts(1u32, tail));
        lemma_parts_bytes_append(ep, location_seq_parts(1u32, tail));
        assert(ep[1].0);
        let after = parts_bytes(location_seq_parts(1u32, tail)) + rest;
        let s = parts_bytes(location_seq_parts(1u32, ys)) + rest;
        assert(s =~= parts_bytes(ep) + after);
        lemma_entry_bytes_read(1u32, location_parts(y), after);
        lemma_tag_value(1u32, WireType::LengthDelimited);
        lemma_location_roundtrip(y, depth + 1, limit);
        let hl = parts_bytes(ep).len() as int;
        let k = varint_len(10u64) as int;
        let v2 = SourceCodeInfoView { location: v.location.push(y), ..v };
        lemma_source_code_info_step(v, s, k, 10u32, hl - k, v2, depth, limit);
        lemma_source_code_info_read_location(v2, tail, rest, depth, limit);
        assert(v.location.push(y) + tail =~= v.location + ys);
    }
}

/// Reading unknown field values written one after the other into a `SourceCodeInfo`, none with the tag
/// of one of its fields, adds them to its unknown fields.
proof fn lemma_source_code_info_read_unknown(v: SourceCodeInfoView, ps: Seq<(u32, FieldValue)>, rest: Seq<u8>, depth: nat, limit: nat)
    requires
        forall|k: int| 0 <= k < ps.len() ==> value_readable(#[trigger] ps[k].0, ps[k].1) && !source_code_info_known_tag(
            tag_value(ps[k].0, field_value_wire_type(ps[k].1)),
        ),
    ensures
        source_code_info_merged(v, parts_bytes(pairs_parts(ps)) + rest, depth, limit, false, None) == source_code_info_merged(
            SourceCodeInfoView { unknown_fields: push_pairs(v.unknown_fields, ps), ..v },
            rest,
            depth, limit, false, None,
        ),
    decreases ps.len(),
{
    if ps.len() == 0 {
        assert(parts_bytes(pairs_parts(ps)) + rest =~= rest);
    } else {
        let n = ps[0].0;
        let fv = ps[0].1;
        let tail = ps.drop_first();
        assert forall|k: int| 0 <= k < tail.len() implies value_readable(#[trigger] tail[k].0, tail[k].1) && !source_code_info_known_tag(
            tag_value(tail[k].0, field_value_wire_type(tail[k].1)),
        ) by {
            assert(tail[k] == ps[k + 1]);
        }
        assert(value_readable(ps[0].0, ps[0].1));
        lemma_parts_bytes_append(field_value_parts(n, fv), pairs_parts(tail));
        let after = parts_bytes(pairs_parts(tail)) + rest;
        let s = parts_bytes(pairs_parts(ps)) + rest;
        assert(s =~= parts_bytes(field_value_parts(n, fv)) + after);
        lemma_read_value_bytes(n, fv, after);
        let t = tag_value(n, field_value_wire_type(fv));
        let hl = parts_bytes(field_value_parts(n, fv)).len() as int;
        let k = varint_len(t as u64) as int;
        let v2 = SourceCodeInfoView { unknown_fields: view_push(v.unknown_fields, n, fv), ..v };
        lemma_source_code_info_step(v, s, k, t, hl - k, v2, depth, limit);
        lemma_source_code_info_read_unknown(v2, tail, rest, depth, limit);
    }
}

/// The writability of the parts of a `SourceCodeInfo` is that of each field's parts.
proof fn lemma_source_code_info_parts_encodable(v: SourceCodeInfoView)
    ensures
        parts_encodable(source_code_info_parts(v)) == (parts_encodable(location_seq_parts(1u32, v.location)) && parts_encodable(set_parts(v.unknown_fields))),
{
    reveal(source_code_info_parts);
    let p0 = location_seq_parts(1u32, v.location);
    let p1 = set_parts(v.unknown_fields);
    let q1 = p1;
    let q0 = p0 + q1;
    lemma_parts_encodable_two(p0, q1);
    assert(source_code_info_parts(v) == q0);
}

/// The bytes of the parts of a `SourceCodeInfo` are those of each field's parts, one after the other.
proof fn lemma_source_code_info_parts_bytes(v: SourceCodeInfoView)
    ensures
        parts_bytes(source_code_info_parts(v)) == parts_bytes(location_seq_parts(1u32, v.location)) + parts_bytes(set_parts(v.unknown_fields)),
{
    reveal(source_code_info_parts);
    let p0 = location_seq_parts(1u32, v.location);
    let p1 = set_parts(v.unknown_fields);
    let q1 = p1;
    let q0 = p0 + q1;
    lemma_parts_bytes_append(p0, q1);
    assert(source_code_info_parts(v) == q0);
}

/// The message a `SourceCodeInfo` `d` becomes when `v` is merged into it: each field `v` holds once
/// replaces the one `d` holds, the values of each repeated field of `v` follow those of `d`,
/// and the unknown fields of `v` are added to those of `d`, field number by field number.
pub open spec fn source_code_info_merge_view(d: SourceCodeInfoView, v: SourceCodeInfoView) -> SourceCodeInfoView {
    SourceCodeInfoView { location: d.location + v.location, unknown_fields: view_merge(d.unknown_fields, v.unknown_fields) }
}

/// Reading the bytes of the parts of a `SourceCodeInfo` `v`, field by field, into `d` merges `v` into `d`.
#[verifier::spinoff_prover]
#[verifier::rlimit(60)]
proof fn lemma_source_code_info_merge_all(d: SourceCodeInfoView, v: SourceCodeInfoView, depth: nat, limit: nat)
    requires
        parts_encodable(location_seq_parts(1u32, v.location)),
        source_code_info_roundtrips(v, depth, limit),
        parts_bytes(source_code_info_parts(v)) == parts_bytes(location_seq_parts(1u32, v.location)) + parts_bytes(set_parts(v.unknown_fields)),
    ensures
        source_code_info_merged(d, parts_bytes(source_code_info_parts(v)), depth, limit, false, None) == Ok::<SourceCodeInfoView, ReadError>(source_code_info_merge_view(d, v)),
{
    let p0 = location_seq_parts(1u32, v.location);
    let p1 = set_parts(v.unknown_fields);
    let b0 = parts_bytes(p0);
    let b1 = parts_bytes(p1);
    let r1 = b1;
    let r0 = b0 + r1;
    let d0 = d;
    let d1 = SourceCodeInfoView { location: d.location + v.location, ..d0 };
    assert(source_code_info_merged(d0, r0, depth, limit, false, None) == source_code_info_merged(d1, r1, depth, limit, false, None)) by {
        lemma_source_code_info_read_location(d0, v.location, r1, depth, limit);
        assert(SourceCodeInfoView { location: d0.location + v.location, ..d0 } == d1);
    }
    let ps = set_pairs(v.unknown_fields);
    assert(source_code_info_merged(d1, r1, depth, limit, false, None) == Ok::<SourceCodeInfoView, ReadError>(source_code_info_merge_view(d, v))) by {
        lemma_set_pairs(v.unknown_fields, d.unknown_fields);
        lemma_entries_readable(v.unknown_fields);
        assert forall|k: int| 0 <= k < ps.len() implies value_readable(#[trigger] ps[k].0, ps[k].1) && !source_code_info_known_tag(
            tag_value(ps[k].0, field_value_wire_type(ps[k].1)),
        ) by {
            assert(!source_code_info_known_tag(tag_value(set_pairs(v.unknown_fields)[k].0, field_value_wire_type(set_pairs(v.unknown_fields)[k].1))));
        }
        lemma_source_code_info_read_unknown(d1, ps, Seq::empty(), depth, limit);
        assert(b1 + Seq::<u8>::empty() =~= b1);
        let dl = SourceCodeInfoView { unknown_fields: push_pairs(d1.unknown_fields, ps), ..d1 };
        assert(dl == source_code_info_merge_view(d, v));
    }
}

/// Reading the bytes of the parts of a `SourceCodeInfo`, field by field, gives the message back.
proof fn lemma_source_code_info_read_all(v: SourceCodeInfoView, depth: nat, limit: nat)
    requires
        parts_encodable(location_seq_parts(1u32, v.location)),
        source_code_info_roundtrips(v, depth, limit),
        parts_bytes(source_code_info_parts(v)) == parts_bytes(location_seq_parts(1u32, v.location)) + parts_bytes(set_parts(v.unknown_fields)),
    ensures
        source_code_info_merged(source_code_info_default(), parts_bytes(source_code_info_parts(v)), depth, limit, false, None) == Ok::<SourceCodeInfoView, ReadError>(v),
{
    lemma_source_code_info_merge_all(source_code_info_default(), v, depth, limit);
    lemma_entries_readable(v.unknown_fields);
    lemma_merge_into_empty(v.unknown_fields);
    assert(Seq::empty() + v.location =~= v.location);
    assert(source_code_info_merge_view(source_code_info_default(), v) == v);
}

/// Merging what a `SourceCodeInfo` `v` writes into a message `d` merges `v` into `d`: each field `v`
/// holds replaces the one `d` holds, repeated values follow those `d` holds, and unknown fields
/// are added to those of `d`, where `d` holds none of the message fields `v` holds (those are
/// merged into each other), at nesting depth `depth` of a reader with recursion limit `limit`
/// that keeps unknown fields, outside any group, where `v` is read back as written.
pub proof fn lemma_source_code_info_merge_written(d: SourceCodeInfoView, v: SourceCodeInfoView, depth: nat, limit: nat)
    requires
        parts_encodable(source_code_info_parts(v)),
        source_code_info_roundtrips(v, depth, limit),
    ensures
        source_code_info_merged(d, parts_bytes(source_code_info_parts(v)), depth, limit, false, None) == Ok::<SourceCodeInfoView, ReadError>(source_code_info_merge_view(d, v)),
{
    lemma_source_code_info_parts_encodable(v);
    lemma_source_code_info_parts_bytes(v);
    lemma_source_code_info_merge_all(d, v, depth, limit);
}

/// A `SourceCodeInfo` is read back as it is written: merging the bytes of its parts into a default
/// message, at nesting depth `depth` of a reader with recursion limit `limit` that keeps
/// unknown fields, outside any group, gives the message back, where it is read back as written.
pub proof fn lemma_source_code_info_roundtrip(v: SourceCodeInfoView, depth: nat, limit: nat)
    requires
        parts_encodable(source_code_info_parts(v)),
        source_code_info_roundtrips(v, depth, limit),
    ensures
        source_code_info_merged(source_code_info_default(), parts_bytes(source_code_info_parts(v)), depth, limit, false, None) == Ok::<SourceCodeInfoView, ReadError>(v),
{
    lemma_source_code_info_parts_encodable(v);
    lemma_source_code_info_parts_bytes(v);
    lemma_source_code_info_read_all(v, depth, limit);
}

/// The `Location` message of `descriptor.proto`.
#[derive(Clone, Debug)]
pub struct Location {
    path: RepeatedField<i32>,
    span: RepeatedField<i32>,
    leading_comments: Option<String>,
    trailing_comments: Option<String>,
    leading_detached_comments: RepeatedField<String>,
    unknown_fields: UnknownFieldSet,
}

/// The view of a `Location`: its fields, and its unknown fields.
pub struct LocationView {
    /// The `path` field.
    pub path: Seq<i32>,
    /// The `span` field.
    pub span: Seq<i32>,
    /// The `leading_comments` field.
    pub leading_comments: Option<Seq<char>>,
    /// The `trailing_comments` field.
    pub trailing_comments: Option<Seq<char>>,
    /// The `leading_detached_comments` field.
    pub leading_detached_comments: Seq<Seq<char>>,
    /// The unknown fields.
    pub unknown_fields: Seq<(u32, Seq<FieldValue>)>,
}

/// The view of a `Location` value.
pub closed spec fn location_view(m: Location) -> LocationView
{
    LocationView {
        path: views(m.path@),
        span: views(m.span@),
        leading_comments: opt_view(m.leading_comments),
        trailing_comments: opt_view(m.trailing_comments),
        leading_detached_comments: views(m.leading_detached_comments@),
        unknown_fields: m.unknown_fields@,
    }
}

/// The views of a run of `Location` values.
pub closed spec fn location_seq_view(s: Seq<Location>) -> Seq<LocationView>
    decreases s,
{
    if s.len() == 0 {
        Seq::empty()
    } else {
        location_seq_view(s.subrange(0, s.len() - 1)).push(location_view(s[s.len() - 1]))
    }
}

/// The view of a `Location` with no field set.
pub open spec fn location_default() -> LocationView {
    LocationView {
        path: Seq::empty(),
        span: Seq::empty(),
        leading_comments: None,
        trailing_comments: None,
        leading_detached_comments: Seq::empty(),
        unknown_fields: Seq::empty(),
    }
}

impl View for Location {
    type V = LocationView;

    open spec fn view(&self) -> LocationView {
        location_view(*self)
    }
}

impl Default for Location {
    /// A message with no field set.
    fn default() -> (r: Location)
        ensures
            r@ == location_default(),
    {
        let r = Location {
            path: Vec::new(),
            span: Vec::new(),
            leading_comments: None,
            trailing_comments: None,
            leading_detached_comments: Vec::new(),
            unknown_fields: UnknownFieldSet::new(),
        };
        proof {
            assert(views(r.path@) =~= Seq::empty());
            assert(views(r.span@) =~= Seq::empty());
            assert(views(r.leading_detached_comments@) =~= Seq::empty());
            assert(r@ =~= location_default());
        }
        r
    }
}

impl Location {
    /// Gets the values of the `path` field.
    pub fn path(&self) -> (r: &RepeatedField<i32>)
        ensures
            views(r@) == self@.path,
    {
        &self.path
    }

    /// Gets the values of the `path` field for changing them.
    pub fn path_mut(&mut self) -> (r: &mut RepeatedField<i32>)
        ensures
            views((*r)@) == old(self)@.path,
            final(self)@ == (LocationView { path: views((*final(r))@), ..old(self)@ }),
    {
        &mut self.path
    }

    /// Gets the values of the `span` field.
    pub fn span(&self) -> (r: &RepeatedField<i32>)
        ensures
            views(r@) == self@.span,
    {
        &self.span
    }

    /// Gets the values of the `span` field for changing them.
    pub fn span_mut(&mut self) -> (r: &mut RepeatedField<i32>)
        ensures
            views((*r)@) == old(self)@.span,
            final(self)@ == (LocationView { span: views((*final(r))@), ..old(self)@ }),
    {
        &mut self.span
    }

    /// Gets the `leading_comments` field, or its default, the empty string.
    pub fn leading_comments(&self) -> (r: &str)
        ensures
            r@ == text_or_empty(self@.leading_comments),
    {
        proof {
            reveal_strlit("");
        }
        match &self.leading_comments {
            Some(s) => s.as_str(),
            None => "",
        }
    }

    /// Gets the `leading_comments` field if it is set.
    pub fn leading_comments_option(&self) -> (r: Option<&String>)
        ensures
            opt_ref_view(r) == self@.leading_comments,
    {
        self.leading_comments.as_ref()
    }

    /// Gets the `leading_comments` field for changing it, setting it to its type's default first if it
    /// is not set.
    pub fn leading_comments_mut(&mut self) -> (r: &mut String)
        ensures
            (*r)@ == old(self)@.leading_comments.unwrap_or(Seq::<char>::empty()),
            final(self)@ == (LocationView { leading_comments: Some((*final(r))@), ..old(self)@ }),
    {
        self.leading_comments.get_or_insert(String::new())
    }

    /// Returns whether the `leading_comments` field is set.
    pub fn has_leading_comments(&self) -> (r: bool)
        ensures
            r == self@.leading_comments is Some,
    {
        self.leading_comments.is_some()
    }

    /// Sets the `leading_comments` field.
    pub fn set_leading_comments(&mut self, value: String)
        ensures
            final(self)@ == (LocationView { leading_comments: Some(value@), ..old(self)@ }),
    {
        self.leading_comments = Some(value);
    }

    /// Takes the `leading_comments` field out, leaving it unset.
    pub fn take_leading_comments(&mut self) -> (r: Option<String>)
        ensures
            opt_view(r) == old(self)@.leading_comments,
            final(self)@ == (LocationView { leading_comments: None, ..old(self)@ }),
    {
        self.leading_comments.take()
    }

    /// Clears the `leading_comments` field, leaving it unset.
    pub fn clear_leading_comments(&mut self)
        ensures
            final(self)@ == (LocationView { leading_comments: None, ..old(self)@ }),
    {
        self.leading_comments = None;
    }

    /// Gets the `trailing_comments` field, or its default, the empty string.
    pub fn trailing_comments(&self) -> (r: &str)
        ensures
            r@ == text_or_empty(self@.trailing_comments),
    {
        proof {
            reveal_strlit("");
        }
        match &self.trailing_comments {
            Some(s) => s.as_str(),
            None => "",
        }
    }

    /// Gets the `trailing_comments` field if it is set.
    pub fn trailing_comments_option(&self) -> (r: Option<&String>)
        ensures
            opt_ref_view(r) == self@.trailing_comments,
    {
        self.trailing_comments.as_ref()
    }

    /// Gets the `trailing_comments` field for changing it, setting it to its type's default first if it
    /// is not set.
    pub fn trailing_comments_mut(&mut self) -> (r: &mut String)
        ensures
            (*r)@ == old(self)@.trailing_comments.unwrap_or(Seq::<char>::empty()),
            final(self)@ == (LocationView { trailing_comments: Some((*final(r))@), ..old(self)@ }),
    {
        self.trailing_comments.get_or_insert(String::new())
    }

    /// Returns whether the `trailing_comments` field is set.
    pub fn has_trailing_comments(&self) -> (r: bool)
        ensures
            r == self@.trailing_comments is Some,
    {
        self.trailing_comments.is_some()
    }

    /// Sets the `trailing_comments` field.
    pub fn set_trailing_comments(&mut self, value: String)
        ensures
            final(self)@ == (LocationView { trailing_comments: Some(value@), ..old(self)@ }),
    {
        self.trailing_comments = Some(value);
    }

    /// Takes the `trailing_comments` field out, leaving it unset.
    pub fn take_trailing_comments(&mut self) -> (r: Option<String>)
        ensures
            opt_view(r) == old(self)@.trailing_comments,
            final(self)@ == (LocationView { trailing_comments: None, ..old(self)@ }),
    {
        self.trailing_comments.take()
    }

    /// Clears the `trailing_comments` field, leaving it unset.
    pub fn clear_trailing_comments(&mut self)
        ensures
            final(self)@ == (LocationView { trailing_comments: None, ..old(self)@ }),
    {
        self.trailing_comments = None;
    }

    /// Gets the values of the `leading_detached_comments` field.
    pub fn leading_detached_comments(&self) -> (r: &RepeatedField<String>)
        ensures
            views(r@) == self@.leading_detached_comments,
    {
        &self.leading_detached_comments
    }

    /// Gets the values of the `leading_detached_comments` field for changing them.
    pub fn leading_detached_comments_mut(&mut self) -> (r: &mut RepeatedField<String>)
        ensures
            views((*r)@) == old(self)@.leading_detached_comments,
            final(self)@ == (LocationView { leading_detached_comments: views((*final(r))@), ..old(self)@ }),
    {
        &mut self.leading_detached_comments
    }
}

/// The parts a `Location` is written as: its fields that are set, in field number order, then its
/// unknown fields.
#[verifier::opaque]
pub open spec fn location_parts(v: LocationView) -> Seq<(bool, Seq<u8>)>
{
    packed_parts::<raw::Int32>(1u32, v.path) + (packed_parts::<raw::Int32>(2u32, v.span) + (opt_field_parts::<raw::String>(3u32, v.leading_comments) + (opt_field_parts::<raw::String>(4u32, v.trailing_comments) + (unpacked_parts::<raw::String>(6u32, v.leading_detached_comments) + (set_parts(v.unknown_fields))))))
}

/// The parts the `Location` values of a repeated field with field number `num` are written as:
/// for each, its tag, its length and its parts.
pub open spec fn location_seq_parts(num: u32, ys: Seq<LocationView>) -> Seq<(bool, Seq<u8>)>
    decreases ys,
{
    if ys.len() == 0 {
        Seq::empty()
    } else {
        location_seq_parts(num, ys.subrange(0, ys.len() - 1)) + entry_parts(num, location_parts(ys[ys.len() - 1]))
    }
}

/// What reading the field with tag value `t` from the front of `rest` into `v` gives: the
/// number of bytes read and the message after, or the error.
pub open spec fn location_field_read(v: LocationView, t: u32, rest: Seq<u8>, depth: nat, limit: nat, skip: bool, eg: Option<Tag>) -> ReadResult<(int, LocationView)>
{
    if t == 8u32 {
        match <RepeatedField<i32> as RepeatedValue<raw::Int32>>::entries_read(rest) { Ok((m, es)) => Ok((m, LocationView { path: v.path + es, ..v })), Err(e) => Err(e) }
    } else if t == 10u32 {
        match <RepeatedField<i32> as RepeatedValue<Packed<raw::Int32>>>::entries_read(rest) { Ok((m, es)) => Ok((m, LocationView { path: v.path + es, ..v })), Err(e) => Err(e) }
    } else if t == 16u32 {
        match <RepeatedField<i32> as RepeatedValue<raw::Int32>>::entries_read(rest) { Ok((m, es)) => Ok((m, LocationView { span: v.span + es, ..v })), Err(e) => Err(e) }
    } else if t == 18u32 {
        match <RepeatedField<i32> as RepeatedValue<Packed<raw::Int32>>>::entries_read(rest) { Ok((m, es)) => Ok((m, LocationView { span: v.span + es, ..v })), Err(e) => Err(e) }
    } else if t == 26u32 {
        match <raw::String as Value>::decoding(rest) { Ok((m, x)) => Ok((m, LocationView { leading_comments: Some(x), ..v })), Err(e) => Err(e) }
    } else if t == 34u32 {
        match <raw::String as Value>::decoding(rest) { Ok((m, x)) => Ok((m, LocationView { trailing_comments: Some(x), ..v })), Err(e) => Err(e) }
    } else if t == 50u32 {
        match <RepeatedField<std::string::String> as RepeatedValue<raw::String>>::entries_read(rest) { Ok((m, es)) => Ok((m, LocationView { leading_detached_comments: v.leading_detached_comments + es, ..v })), Err(e) => Err(e) }
    } else {
        match unknown_field_read(v.unknown_fields, t, rest, depth, limit, skip, eg) {
            Ok((m, u)) => Ok((m, LocationView { unknown_fields: u, ..v })),
            Err(e) => Err(e),
        }
    }
}

/// What reading all of `s` into `v` as `Location` fields gives: the message after, or the error.
/// `depth` and `limit` are the reader's depth and recursion limit, `skip` whether it skips
/// unknown fields, and `eg` the end tag of the group it is in.
pub open spec fn location_merged(v: LocationView, s: Seq<u8>, depth: nat, limit: nat, skip: bool, eg: Option<Tag>) -> ReadResult<LocationView>
    decreases s.len(),
{
    if s.len() == 0 {
        Ok(v)
    } else {
        match varint_read(s) {
            Err(e) => Err(e),
            Ok((n, w)) => if n < 1 || n > s.len() {
                Err(eof())
            } else {
                match location_field_read(v, w as u32, s.skip(n), depth, limit, skip, eg) {
                    Err(e) => Err(e),
                    Ok((m, v2)) => if m < 0 || n + m > s.len() {
                        Err(eof())
                    } else {
                        location_merged(v2, s.skip(n + m), depth, limit, skip, eg)
                    },
                }
            },
        }
    }
}

/// The views of a run of `Location` values, value by value.
pub proof fn lemma_location_seq_view(s: Seq<Location>)
    ensures
        location_seq_view(s).len() == s.len(),
        forall|i: int| 0 <= i < s.len() ==> #[trigger] location_seq_view(s)[i] == location_view(s[i]),
    decreases s.len(),
{
    if s.len() > 0 {
        lemma_location_seq_view(s.subrange(0, s.len() - 1));
        assert forall|i: int| 0 <= i < s.len() implies #[trigger] location_seq_view(s)[i] == location_view(s[i]) by {
            if i < s.len() - 1 {
                assert(s.subrange(0, s.len() - 1)[i] == s[i]);
            }
        }
    }
}

/// The parts of two runs of `Location` values are those of the first, then the second.
proof fn lemma_location_seq_parts_append(num: u32, a: Seq<LocationView>, b: Seq<LocationView>)
    ensures
        location_seq_parts(num, a + b) == location_seq_parts(num, a) + location_seq_parts(num, b),
    decreases b.len(),
{
    if b.len() == 0 {
        assert(a + b =~= a);
        assert(location_seq_parts(num, a) + location_seq_parts(num, b) =~= location_seq_parts(num, a));
    } else {
        let ab = a + b;
        assert(ab.subrange(0, ab.len() - 1) =~= a + b.subrange(0, b.len() - 1));
        assert(ab[ab.len() - 1] == b[b.len() - 1]);
        lemma_location_seq_parts_append(num, a, b.subrange(0, b.len() - 1));
        assert(location_seq_parts(num, a + b) =~= location_seq_parts(num, a) + location_seq_parts(num, b));
    }
}

/// The parts of the first `i + 1` values of a run are those of the first `i`, then the entry
/// of value `i`; and those of the whole run are those of the first `i + 1`, then the rest.
proof fn lemma_location_seq_parts_step(num: u32, ys: Seq<LocationView>, i: int)
    requires
        0 <= i < ys.len(),
    ensures
        location_seq_parts(num, ys.take(i + 1)) == location_seq_parts(num, ys.take(i)) + entry_parts(num, location_parts(ys[i])),
        location_seq_parts(num, ys) == location_seq_parts(num, ys.take(i + 1)) + location_seq_parts(num, ys.skip(i + 1)),
{
    assert(ys.take(i + 1).subrange(0, i) =~= ys.take(i));
    assert(ys.take(i + 1)[i] == ys[i]);
    lemma_location_seq_parts_append(num, ys.take(i + 1), ys.skip(i + 1));
    assert(ys.take(i + 1) + ys.skip(i + 1) =~= ys);
}

/// The parts of `Location` values are those of the first value's entry, then those of the others.
proof fn lemma_location_seq_parts_front(num: u32, ys: Seq<LocationView>)
    requires
        ys.len() > 0,
    ensures
        location_seq_parts(num, ys) == entry_parts(num, location_parts(ys[0])) + location_seq_parts(num, ys.drop_first()),
{
    let one = seq![ys[0]];
    lemma_location_seq_parts_append(num, one, ys.drop_first());
    assert(one + ys.drop_first() =~= ys);
    assert(one.subrange(0, 0) =~= Seq::<LocationView>::empty());
    assert(location_seq_parts(num, Seq::<LocationView>::empty()) =~= Seq::<(bool, Seq<u8>)>::empty());
    assert(one[0] == ys[0]);
    assert(location_seq_parts(num, one) =~= entry_parts(num, location_parts(ys[0])));
}

/// Adds the size of the `Location` values of a repeated field with field number `num`.
fn location_values_size(vs: &Vec<Location>, builder: LengthBuilder, num: FieldNumber) -> (r: Option<LengthBuilder>)
    ensures
        size_added(builder@ as int, parts_encodable(location_seq_parts(num@, location_seq_view(vs@))), parts_bytes(location_seq_parts(num@, location_seq_view(vs@))).len() as int, r),
{
    let ghost ys = location_seq_view(vs@);
    proof {
        lemma_location_seq_view(vs@);
        assert(ys.take(0) =~= Seq::<LocationView>::empty());
    }
    let mut b = builder;
    let mut i: usize = 0;
    while i < vs.len()
        invariant
            ys == location_seq_view(vs@),
            ys.len() == vs@.len(),
            forall|k: int| 0 <= k < vs@.len() ==> #[trigger] ys[k] == location_view(vs@[k]),
            i <= vs@.len(),
            size_added(builder@ as int, parts_encodable(location_seq_parts(num@, ys.take(i as int))), parts_bytes(location_seq_parts(num@, ys.take(i as int))).len() as int, Some(b)),
        decreases vs@.len() - i,
    {
        let ghost y = ys[i as int];
        let ghost done = location_seq_parts(num@, ys.take(i as int));
        let ghost cur = entry_parts(num@, location_parts(y));
        let ghost rest = location_seq_parts(num@, ys.skip(i + 1));
        proof {
            lemma_location_seq_parts_step(num@, ys, i as int);
        }
        let len = vs[i].calculate_size();
        let r = add_entry_size(b, num, len, Ghost(location_parts(y)));
        proof {
            lemma_size_chain(builder@ as int, done, cur, Some(b), r);
        }
        b = match r {
            Some(b1) => b1,
            None => {
                proof {
                    lemma_size_prefix(builder@ as int, done + cur, rest);
                }
                return None;
            },
        };
        i = i + 1;
    }
    proof {
        assert(ys.take(i as int) =~= ys);
    }
    Some(b)
}

/// Writes the `Location` values of a repeated field with field number `num`: for each, its tag,
/// its length and its fields.
fn write_location_values(vs: &Vec<Location>, output: &mut CodedWriter, num: FieldNumber) -> (r: WriteResult)
    ensures
        (final(output).written(), r) == parts_written(old(output).written(), old(output).capacity(), location_seq_parts(num@, location_seq_view(vs@))),
        final(output).capacity() == old(output).capacity(),
        (*final(final(output).target()))@ == (*final(old(output).target()))@,
{
    let ghost ys = location_seq_view(vs@);
    let ghost start = output.written();
    let ghost cap = output.capacity();
    proof {
        lemma_location_seq_view(vs@);
        assert(ys.take(0) =~= Seq::<LocationView>::empty());
    }
    let mut i: usize = 0;
    while i < vs.len()
        invariant
            ys == location_seq_view(vs@),
            ys.len() == vs@.len(),
            forall|k: int| 0 <= k < vs@.len() ==> #[trigger] ys[k] == location_view(vs@[k]),
            i <= vs@.len(),
            start == old(output).written(),
            cap == old(output).capacity(),
            output.capacity() == cap,
            (*final(output.target()))@ == (*final(old(output).target()))@,
            parts_written(start, cap, location_seq_parts(num@, ys.take(i as int))).0 == output.written(),
            parts_written(start, cap, location_seq_parts(num@, ys.take(i as int))).1 is Ok,
        decreases vs@.len() - i,
    {
        let ghost y = ys[i as int];
        let ghost done = location_seq_parts(num@, ys.take(i as int));
        let ghost head = entry_head(num@, location_parts(y));
        let ghost cur = head + location_parts(y);
        let ghost rest = location_seq_parts(num@, ys.skip(i + 1));
        let ghost w0 = output.written();
        proof {
            lemma_location_seq_parts_step(num@, ys, i as int);
            lemma_parts_written_append(start, cap, done, cur);
            lemma_parts_written_append(start, cap, done + cur, rest);
            lemma_parts_written_append(w0, cap, head, location_parts(y));
            reveal_with_fuel(parts_written, 3);
            assert(head.drop_first().drop_first() =~= Seq::<(bool, Seq<u8>)>::empty());
        }
        match output.write_tag(Tag::new(num, WireType::LengthDelimited)) {
            Ok(()) => {},
            Err(e) => return Err(e),
        }
        let len = match vs[i].calculate_size() {
            Some(len) => len,
            None => return Err(WriteError::ValueTooLarge),
        };
        match output.write_length(len) {
            Ok(()) => {},
            Err(e) => return Err(e),
        }
        match vs[i].write_to(output) {
            Ok(()) => {},
            Err(e) => return Err(e),
        }
        i = i + 1;
    }
    proof {
        assert(ys.take(i as int) =~= ys);
        lemma_ok_unit(parts_written(start, cap, location_seq_parts(num@, ys)).1);
    }
    Ok(())
}

/// Reads a `Location` from the reader as a length delimited value, merging it into `this`, one
/// level deeper.
fn merge_location_delimited(this: &mut Location, input: &mut CodedReader) -> (r: ReadResult<()>)
    ensures
        match length_delimited_read(old(input).available()) {
            Err(e) => r == Err::<(), ReadError>(e) && same_config(*old(input), *final(input)),
            Ok((m, b)) => if old(input).depth() >= old(input).recursion_limit() {
                r == Err::<(), ReadError>(ReadError::RecursionLimitExceeded) && same_config(*old(input), *final(input))
            } else {
                match location_merged(old(this)@, b, old(input).depth() + 1, old(input).recursion_limit(), skips(*old(input)), old(input).end_group_view()) {
                    Ok(y) => r is Ok && final(this)@ == y && final(input).position() == old(input).position() + m
                        && same_state(*old(input), *final(input)),
                    Err(e) => r == Err::<(), ReadError>(e) && same_config(*old(input), *final(input)),
                }
            },
        },
{
    let rem0 = input.remaining();
    let ghost s = input.available();
    let ghost start = *input;
    let length = match input.read_length() {
        Ok(l) => l,
        Err(e) => return Err(e),
    };
    let rem1 = input.remaining();
    let ghost n0 = input.position() - start.position();
    proof {
        lemma_varint_read_len(s);
        assert(input.available() =~= s.skip(n0));
    }
    let previous = match input.push_length(length) {
        Ok(p) => p,
        Err(e) => return Err(e),
    };
    let rem2 = input.remaining();
    let ghost b = s.subrange(n0, n0 + length@);
    proof {
        assert(input.available() =~= b);
        assert(length_delimited_read(s) == Ok::<(int, Seq<u8>), ReadError>((n0 + length@, b)));
    }
    let ghost pushed = *input;
    match input.increment_recursion_count() {
        Ok(()) => {},
        Err(e) => {
            input.pop_length(previous);
            return Err(e);
        },
    }
    let r = this.merge_from(input);
    let rem3 = input.remaining();
    input.decrement_recursion_count();
    input.pop_length(previous);
    r
}

impl Location {
    /// Gets the unknown fields of the message.
    pub fn unknown_fields(&self) -> (r: &UnknownFieldSet)
        ensures
            r@ == self@.unknown_fields,
    {
        &self.unknown_fields
    }

    /// Gets the unknown fields of the message for changing them.
    pub fn unknown_fields_mut(&mut self) -> (r: &mut UnknownFieldSet)
        ensures
            (*r)@ == old(self)@.unknown_fields,
            final(self)@ == (LocationView { unknown_fields: (*final(r))@, ..old(self)@ }),
    {
        &mut self.unknown_fields
    }

    /// Returns whether the message is initialized: whether all its required fields are set.
    pub fn is_initialized(&self) -> (r: bool)
        ensures
            r,
    {
        if !crate::is_initialized(&self.path) {
            return false;
        }
        if !crate::is_initialized(&self.span) {
            return false;
        }
        if !crate::is_initialized(&self.leading_detached_comments) {
            return false;
        }
        true
    }

    /// Calculates the size of the message as it is written: `None` if a part cannot be
    /// written or the size does not fit in a length.
    #[verifier::spinoff_prover]
    pub fn calculate_size(&self) -> (r: Option<Length>)
        ensures
            opt_length(r) == parts_size(location_parts(self@)),
    {
        let ghost v = self@;
        let ghost all = location_parts(v);
        let b0 = LengthBuilder::new();
        let ghost d0 = Seq::<(bool, Seq<u8>)>::empty();
        proof {
            reveal(location_parts);
            assert(all =~= d0 + all);
        }
        let ghost p1 = packed_parts::<raw::Int32>(1u32, v.path);
        let ghost rest1 = packed_parts::<raw::Int32>(2u32, v.span) + (opt_field_parts::<raw::String>(3u32, v.leading_comments) + (opt_field_parts::<raw::String>(4u32, v.trailing_comments) + (unpacked_parts::<raw::String>(6u32, v.leading_detached_comments) + (set_parts(v.unknown_fields)))));
        proof {
            <RepeatedField<i32> as RepeatedValue<Packed<raw::Int32>>>::lemma_countable(&self.path, 1u32);
            assert(all == d0 + (p1 + rest1));
            assert(d0 + (p1 + rest1) =~= d0 + p1 + rest1);
        }
        let r1 = <RepeatedField<i32> as RepeatedValue<Packed<raw::Int32>>>::calculate_size(&self.path, b0, FieldNumber::new_unchecked(1));
        proof {
            lemma_size_chain(0, d0, p1, Some(b0), r1);
            if r1 is None {
                lemma_size_chain(0, d0 + p1, rest1, r1, r1);
            }
        }
        let b1 = match r1 {
            Some(b) => b,
            None => return None,
        };
        let ghost d1 = d0 + p1;
        let ghost p2 = packed_parts::<raw::Int32>(2u32, v.span);
        let ghost rest2 = opt_field_parts::<raw::String>(3u32, v.leading_comments) + (opt_field_parts::<raw::String>(4u32, v.trailing_comments) + (unpacked_parts::<raw::String>(6u32, v.leading_detached_comments) + (set_parts(v.unknown_fields))));
        proof {
            <RepeatedField<i32> as RepeatedValue<Packed<raw::Int32>>>::lemma_countable(&self.span, 2u32);
            assert(all == d1 + (p2 + rest2));
            assert(d1 + (p2 + rest2) =~= d1 + p2 + rest2);
        }
        let r2 = <RepeatedField<i32> as RepeatedValue<Packed<raw::Int32>>>::calculate_size(&self.span, b1, FieldNumber::new_unchecked(2));
        proof {
            lemma_size_chain(0, d1, p2, Some(b1), r2);
            if r2 is None {
                lemma_size_chain(0, d1 + p2, rest2, r2, r2);
            }
        }
        let b2 = match r2 {
            Some(b) => b,
            None => return None,
        };
        let ghost d2 = d1 + p2;
        let ghost p3 = opt_field_parts::<raw::String>(3u32, v.leading_comments);
        let ghost rest3 = opt_field_parts::<raw::String>(4u32, v.trailing_comments) + (unpacked_parts::<raw::String>(6u32, v.leading_detached_comments) + (set_parts(v.unknown_fields)));
        proof {
            assert(self@.leading_comments == opt_inner_view::<raw::String>(self.leading_comments));
            assert(all == d2 + (p3 + rest3));
            assert(d2 + (p3 + rest3) =~= d2 + p3 + rest3);
        }
        let r3 = add_opt_field::<raw::String>(b2, FieldNumber::new_unchecked(3), &self.leading_comments);
        proof {
            lemma_size_chain(0, d2, p3, Some(b2), r3);
            if r3 is None {
                lemma_size_chain(0, d2 + p3, rest3, r3, r3);
            }
        }
        let b3 = match r3 {
            Some(b) => b,
            None => return None,
        };
        let ghost d3 = d2 + p3;
        let ghost p4 = opt_field_parts::<raw::String>(4u32, v.trailing_comments);
        let ghost rest4 = unpacked_parts::<raw::String>(6u32, v.leading_detached_comments) + (set_parts(v.unknown_fields));
        proof {
            assert(self@.trailing_comments == opt_inner_view::<raw::String>(self.trailing_comments));
            assert(all == d3 + (p4 + rest4));
            assert(d3 + (p4 + rest4) =~= d3 + p4 + rest4);
        }
        let r4 = add_opt_field::<raw::String>(b3, FieldNumber::new_unchecked(4), &self.trailing_comments);
        proof {
            lemma_size_chain(0, d3, p4, Some(b3), r4);
            if r4 is None {
                lemma_size_chain(0, d3 + p4, rest4, r4, r4);
            }
        }
        let b4 = match r4 {
            Some(b) => b,
            None => return None,
        };
        let ghost d4 = d3 + p4;
        let ghost p5 = unpacked_parts::<raw::String>(6u32, v.leading_detached_comments);
        let ghost rest5 = set_parts(v.unknown_fields);
        proof {
            <RepeatedField<std::string::String> as RepeatedValue<raw::String>>::lemma_countable(&self.leading_detached_comments, 6u32);
            assert(all == d4 + (p5 + rest5));
            assert(d4 + (p5 + rest5) =~= d4 + p5 + rest5);
        }
        let r5 = <RepeatedField<std::string::String> as RepeatedValue<raw::String>>::calculate_size(&self.leading_detached_comments, b4, FieldNumber::new_unchecked(6));
        proof {
            lemma_size_chain(0, d4, p5, Some(b4), r5);
            if r5 is None {
                lemma_size_chain(0, d4 + p5, rest5, r5, r5);
            }
        }
        let b5 = match r5 {
            Some(b) => b,
            None => return None,
        };
        let ghost d5 = d4 + p5;
        let ghost p6 = set_parts(v.unknown_fields);
        let ghost rest6 = Seq::<(bool, Seq<u8>)>::empty();
        proof {
            assert(all == d5 + p6);
            assert(p6 + rest6 =~= p6);
            assert(d5 + (p6 + rest6) =~= d5 + p6 + rest6);
        }
        let r6 = self.unknown_fields.calculate_size(b5);
        proof {
            lemma_size_chain(0, d5, p6, Some(b5), r6);
            if r6 is None {
                lemma_size_chain(0, d5 + p6, rest6, r6, r6);
            }
        }
        let b6 = match r6 {
            Some(b) => b,
            None => return None,
        };
        let ghost d6 = d5 + p6;
        Some(b6.build())
    }

    /// Writes the message to the writer: its fields that are set, in field number order, then
    /// its unknown fields.
    #[verifier::spinoff_prover]
    pub fn write_to(&self, output: &mut CodedWriter) -> (r: WriteResult)
        ensures
            (final(output).written(), r) == parts_written(old(output).written(), old(output).capacity(), location_parts(self@)),
            final(output).capacity() == old(output).capacity(),
            (*final(final(output).target()))@ == (*final(old(output).target()))@,
    {
        let ghost v = self@;
        let ghost all = location_parts(v);
        let ghost start = output.written();
        let ghost cap = output.capacity();
        let ghost d0 = Seq::<(bool, Seq<u8>)>::empty();
        proof {
            reveal(location_parts);
            assert(all =~= d0 + all);
        }
        let ghost p1 = packed_parts::<raw::Int32>(1u32, v.path);
        let ghost rest1 = packed_parts::<raw::Int32>(2u32, v.span) + (opt_field_parts::<raw::String>(3u32, v.leading_comments) + (opt_field_parts::<raw::String>(4u32, v.trailing_comments) + (unpacked_parts::<raw::String>(6u32, v.leading_detached_comments) + (set_parts(v.unknown_fields)))));
        proof {
            assert(all == d0 + (p1 + rest1));
            assert(d0 + (p1 + rest1) =~= d0 + p1 + rest1);
            lemma_parts_written_append(start, cap, d0, p1);
            lemma_parts_written_append(start, cap, d0 + p1, rest1);
        }
        match <RepeatedField<i32> as RepeatedValue<Packed<raw::Int32>>>::write_to(&self.path, output, FieldNumber::new_unchecked(1)) {
            Ok(()) => {},
            Err(e) => return Err(e),
        }
        let ghost d1 = d0 + p1;
        let ghost p2 = packed_parts::<raw::Int32>(2u32, v.span);
        let ghost rest2 = opt_field_parts::<raw::String>(3u32, v.leading_comments) + (opt_field_parts::<raw::String>(4u32, v.trailing_comments) + (unpacked_parts::<raw::String>(6u32, v.leading_detached_comments) + (set_parts(v.unknown_fields))));
        proof {
            assert(all == d1 + (p2 + rest2));
            assert(d1 + (p2 + rest2) =~= d1 + p2 + rest2);
            lemma_parts_written_append(start, cap, d1, p2);
            lemma_parts_written_append(start, cap, d1 + p2, rest2);
        }
        match <RepeatedField<i32> as RepeatedValue<Packed<raw::Int32>>>::write_to(&self.span, output, FieldNumber::new_unchecked(2)) {
            Ok(()) => {},
            Err(e) => return Err(e),
        }
        let ghost d2 = d1 + p2;
        let ghost p3 = opt_field_parts::<raw::String>(3u32, v.leading_comments);
        let ghost rest3 = opt_field_parts::<raw::String>(4u32, v.trailing_comments) + (unpacked_parts::<raw::String>(6u32, v.leading_detached_comments) + (set_parts(v.unknown_fields)));
        proof {
            assert(self@.leading_comments == opt_inner_view::<raw::String>(self.leading_comments));
            assert(all == d2 + (p3 + rest3));
            assert(d2 + (p3 + rest3) =~= d2 + p3 + rest3);
            lemma_parts_written_append(start, cap, d2, p3);
            lemma_parts_written_append(start, cap, d2 + p3, rest3);
        }
        match write_opt_field::<raw::String>(output, FieldNumber::new_unchecked(3), &self.leading_comments) {
            Ok(()) => {},
            Err(e) => return Err(e),
        }
        let ghost d3 = d2 + p3;
        let ghost p4 = opt_field_parts::<raw::String>(4u32, v.trailing_comments);
        let ghost rest4 = unpacked_parts::<raw::String>(6u32, v.leading_detached_comments) + (set_parts(v.unknown_fields));
        proof {
            assert(self@.trailing_comments == opt_inner_view::<raw::String>(self.trailing_comments));
            assert(all == d3 + (p4 + rest4));
            assert(d3 + (p4 + rest4) =~= d3 + p4 + rest4);
            lemma_parts_written_append(start, cap, d3, p4);
            lemma_parts_written_append(start, cap, d3 + p4, rest4);
        }
        match write_opt_field::<raw::String>(output, FieldNumber::new_unchecked(4), &self.trailing_comments) {
            Ok(()) => {},
            Err(e) => return Err(e),
        }
        let ghost d4 = d3 + p4;
        let ghost p5 = unpacked_parts::<raw::String>(6u32, v.leading_detached_comments);
        let ghost rest5 = set_parts(v.unknown_fields);
        proof {
            assert(all == d4 + (p5 + rest5));
            assert(d4 + (p5 + rest5) =~= d4 + p5 + rest5);
            lemma_parts_written_append(start, cap, d4, p5);
            lemma_parts_written_append(start, cap, d4 + p5, rest5);
        }
        match <RepeatedField<std::string::String> as RepeatedValue<raw::String>>::write_to(&self.leading_detached_comments, output, FieldNumber::new_unchecked(6)) {
            Ok(()) => {},
            Err(e) => return Err(e),
        }
        let ghost d5 = d4 + p5;
        let ghost p6 = set_parts(v.unknown_fields);
        let ghost rest6 = Seq::<(bool, Seq<u8>)>::empty();
        proof {
            assert(all == d5 + p6);
            assert(p6 + rest6 =~= p6);
            assert(d5 + (p6 + rest6) =~= d5 + p6 + rest6);
            lemma_parts_written_append(start, cap, d5, p6);
            lemma_parts_written_append(start, cap, d5 + p6, rest6);
        }
        match self.unknown_fields.write_to(output) {
            Ok(()) => {},
            Err(e) => return Err(e),
        }
        let ghost d6 = d5 + p6;
        proof {
            assert(all =~= d6 + Seq::<(bool, Seq<u8>)>::empty());
            assert(all == d6);
            lemma_ok_unit(parts_written(start, cap, all).1);
        }
        Ok(())
    }

    /// Reads the value of the field whose tag value `t` was just read into the message.
    #[verifier::spinoff_prover]
    fn merge_field(&mut self, t: u32, input: &mut CodedReader) -> (r: ReadResult<()>)
        ensures
            match location_field_read(old(self)@, t, old(input).available(), old(input).depth(), old(input).recursion_limit(), skips(*old(input)), old(input).end_group_view()) {
                Ok((m, v2)) => r is Ok && final(self)@ == v2 && m >= 0 && final(input).position()
                    == old(input).position() + m && same_state(*old(input), *final(input)),
                Err(e) => r == Err::<(), ReadError>(e) && same_config(*old(input), *final(input)),
            },
    {
        let rem0 = input.remaining();
        let ghost rest = input.available();
        if t == 8u32 {
            proof {
                <raw::Int32 as Value>::lemma_decoding_len(rest);
            }
            input.set_last_tag(Some(Tag::new(FieldNumber::new_unchecked(1), WireType::Varint)));
            match <RepeatedField<i32> as RepeatedValue<raw::Int32>>::add_entries_from(&mut self.path, input) {
                Ok(()) => {},
                Err(e) => return Err(e),
            }
        } else if t == 10u32 {
            proof {
                lemma_length_delimited_read_len(rest);
            }
            input.set_last_tag(Some(Tag::new(FieldNumber::new_unchecked(1), WireType::LengthDelimited)));
            match <RepeatedField<i32> as RepeatedValue<Packed<raw::Int32>>>::add_entries_from(&mut self.path, input) {
                Ok(()) => {},
                Err(e) => return Err(e),
            }
        } else if t == 16u32 {
            proof {
                <raw::Int32 as Value>::lemma_decoding_len(rest);
            }
            input.set_last_tag(Some(Tag::new(FieldNumber::new_unchecked(2), WireType::Varint)));
            match <RepeatedField<i32> as RepeatedValue<raw::Int32>>::add_entries_from(&mut self.span, input) {
                Ok(()) => {},
                Err(e) => return Err(e),
            }
        } else if t == 18u32 {
            proof {
                lemma_length_delimited_read_len(rest);
            }
            input.set_last_tag(Some(Tag::new(FieldNumber::new_unchecked(2), WireType::LengthDelimited)));
            match <RepeatedField<i32> as RepeatedValue<Packed<raw::Int32>>>::add_entries_from(&mut self.span, input) {
                Ok(()) => {},
                Err(e) => return Err(e),
            }
        } else if t == 26u32 {
            proof {
                <raw::String as Value>::lemma_decoding_len(rest);
            }
            input.set_last_tag(Some(Tag::new(FieldNumber::new_unchecked(3), WireType::LengthDelimited)));
            match <raw::String as Value>::merge_from(self.leading_comments.get_or_insert(std::string::String::new()), input) {
                Ok(()) => {},
                Err(e) => return Err(e),
            }
        } else if t == 34u32 {
            proof {
                <raw::String as Value>::lemma_decoding_len(rest);
            }
            input.set_last_tag(Some(Tag::new(FieldNumber::new_unchecked(4), WireType::LengthDelimited)));
            match <raw::String as Value>::merge_from(self.trailing_comments.get_or_insert(std::string::String::new()), input) {
                Ok(()) => {},
                Err(e) => return Err(e),
            }
        } else if t == 50u32 {
            proof {
                <raw::String as Value>::lemma_decoding_len(rest);
            }
            input.set_last_tag(Some(Tag::new(FieldNumber::new_unchecked(6), WireType::LengthDelimited)));
            match <RepeatedField<std::string::String> as RepeatedValue<raw::String>>::add_entries_from(&mut self.leading_detached_comments, input) {
                Ok(()) => {},
                Err(e) => return Err(e),
            }
        } else {
            let tag = match Tag::try_from(t) {
                Ok(tag) => tag,
                Err(_) => return Err(ReadError::InvalidTag(t)),
            };
            input.set_last_tag(Some(tag));
            match self.unknown_fields.try_add_field_from(input) {
                Ok(TryRead::Consumed) => {},
                Ok(TryRead::Yielded) => match input.skip() {
                    Ok(()) => {},
                    Err(e) => return Err(e),
                },
                Err(e) => return Err(e),
            }
        }
        let rem1 = input.remaining();
        Ok(())
    }

    /// Merges the message with fields read from the reader, up to its limit. Scalar fields
    /// read replace those set, message fields are merged, repeated fields are added to,
    /// and unknown fields are stored or skipped as the reader says. On an error the message
    /// may hold some of the fields read before it.
    #[verifier::spinoff_prover]
    #[verifier::rlimit(50)]
    pub fn merge_from(&mut self, input: &mut CodedReader) -> (r: ReadResult<()>)
        ensures
            merge_outcome(location_merged(old(self)@, old(input).available(), old(input).depth(), old(input).recursion_limit(), skips(*old(input)), old(input).end_group_view()), final(self)@, *old(input), *final(input), r),
    {
        let rem0 = input.remaining();
        let ghost start = *input;
        let ghost total = location_merged(self@, input.available(), input.depth(), input.recursion_limit(), skips(*input), input.end_group_view());
        loop
            invariant
                start == *old(input),
                same_state(start, *input),
                0 <= start.position() <= input.position(),
                input.limit_end() <= input.input().len(),
                total == location_merged(old(self)@, start.available(), start.depth(), start.recursion_limit(), skips(start), start.end_group_view()),
                total == location_merged(self@, input.available(), start.depth(), start.recursion_limit(), skips(start), start.end_group_view()),
            decreases input.available().len(),
        {
            let ghost s = input.available();
            let ghost before = *input;
            let ghost v = self@;
            let t = match input.read_field() {
                Ok(Some(t)) => t,
                Ok(None) => return Ok(()),
                Err(e) => return Err(e),
            };
            let rem1 = input.remaining();
            let ghost n = input.position() - before.position();
            proof {
                lemma_varint_read_len(s);
                assert(input.available() =~= s.skip(n));
            }
            let ghost mid = *input;
            match self.merge_field(t, input) {
                Ok(()) => {},
                Err(e) => return Err(e),
            }
            let rem2 = input.remaining();
            proof {
                let m = input.position() - mid.position();
                assert(input.available() =~= s.skip(n + m));
            }
        }
    }
}

impl crate::Message for Location {
    open spec fn merged(v: LocationView, s: Seq<u8>, depth: nat, limit: nat, skip: bool, eg: Option<Tag>) -> ReadResult<LocationView> {
        location_merged(v, s, depth, limit, skip, eg)
    }

    open spec fn parts(v: LocationView) -> Seq<(bool, Seq<u8>)> {
        location_parts(v)
    }

    open spec fn initialized(v: LocationView) -> bool {
        true
    }

    open spec fn unknown_fields_of(v: LocationView) -> Seq<(u32, Seq<FieldValue>)> {
        v.unknown_fields
    }

    open spec fn with_unknown_fields(v: LocationView, u: Seq<(u32, Seq<FieldValue>)>) -> LocationView {
        LocationView { unknown_fields: u, ..v }
    }

    fn merge_from(&mut self, input: &mut CodedReader) -> (r: ReadResult<()>) {
        Location::merge_from(self, input)
    }

    fn calculate_size(&self) -> (r: Option<Length>) {
        Location::calculate_size(self)
    }

    fn write_to(&self, output: &mut CodedWriter) -> (r: WriteResult) {
        Location::write_to(self, output)
    }

    fn is_initialized(&self) -> (r: bool) {
        Location::is_initialized(self)
    }

    fn unknown_fields(&self) -> (r: &UnknownFieldSet) {
        Location::unknown_fields(self)
    }

    fn unknown_fields_mut(&mut self) -> (r: &mut UnknownFieldSet) {
        Location::unknown_fields_mut(self)
    }
}

impl DebugMessage for Location {
    open spec fn spec_full_name() -> Seq<char> {
        "google.protobuf.SourceCodeInfo.Location"@
    }

    open spec fn spec_name() -> Seq<char> {
        "Location"@
    }

    fn full_name() -> (r: &'static str) {
        "google.protobuf.SourceCodeInfo.Location"
    }

    fn name() -> (r: &'static str) {
        "Location"
    }
}

/// Whether `t` is the tag of a field a `Location` reads.
pub open spec fn location_known_tag(t: u32) -> bool {
    t == 8u32 || t == 10u32 || t == 16u32 || t == 18u32 || t == 26u32 || t == 34u32 || t == 50u32
}

/// Whether a `Location` is read back as it is written, at nesting depth `depth` of a reader with
/// recursion limit `limit`: its messages are read back as written one level deeper, within
/// the limit; and its unknown fields are read back as written, none with the tag of one of
/// its fields.
pub open spec fn location_roundtrips(v: LocationView, depth: nat, limit: nat) -> bool
{
    &&& set_readable(v.unknown_fields)
    &&& forall|k: int| 0 <= k < set_pairs(v.unknown_fields).len() ==> !location_known_tag(tag_value(
        #[trigger] set_pairs(v.unknown_fields)[k].0,
        field_value_wire_type(set_pairs(v.unknown_fields)[k].1),
    ))
}

/// Reading a `Location` field whose tag is read from the front of `s` and whose value is read after
/// it continues with the rest of `s`.
proof fn lemma_location_step(v: LocationView, s: Seq<u8>, k: int, t: u32, m: int, v2: LocationView, depth: nat, limit: nat)
    requires
        varint_read(s) == Ok::<(int, u64), ReadError>((k, t as u64)),
        1 <= k <= s.len(),
        location_field_read(v, t, s.skip(k), depth, limit, false, None) == Ok::<(int, LocationView), ReadError>((m, v2)),
        0 <= m,
        k + m <= s.len(),
    ensures
        location_merged(v, s, depth, limit, false, None) == location_merged(v2, s.skip(k + m), depth, limit, false, None),
{
    assert((t as u64) as u32 == t);
}

/// Reading the values written packed as field `path` of a `Location` adds the values.
proof fn lemma_location_read_path(v: LocationView, vs: Seq<i32>, rest: Seq<u8>, depth: nat, limit: nat)
    requires
        vs.len() > 0 ==> packed_fits::<raw::Int32>(vs),
    ensures
        location_merged(v, parts_bytes(packed_parts::<raw::Int32>(1u32, vs)) + rest, depth, limit, false, None) == location_merged(
            LocationView { path: v.path + vs, ..v },
            rest,
            depth, limit, false, None,
        ),
{
    if vs.len() == 0 {
        assert(parts_bytes(packed_parts::<raw::Int32>(1u32, vs)) + rest =~= rest);
        assert(v.path + vs =~= v.path);
    } else {
        lemma_packed_bytes_read::<raw::Int32>(1u32, vs, rest);
        lemma_tag_value(1u32, WireType::LengthDelimited);
        let s = parts_bytes(packed_parts::<raw::Int32>(1u32, vs)) + rest;
        let hl = parts_bytes(packed_parts::<raw::Int32>(1u32, vs)).len() as int;
        let k = varint_len(10u64) as int;
        let v2 = LocationView { path: v.path + vs, ..v };
        lemma_location_step(v, s, k, 10u32, hl - k, v2, depth, limit);
    }
}

/// Reading the values written packed as field `span` of a `Location` adds the values.
proof fn lemma_location_read_span(v: LocationView, vs: Seq<i32>, rest: Seq<u8>, depth: nat, limit: nat)
    requires
        vs.len() > 0 ==> packed_fits::<raw::Int32>(vs),
    ensures
        location_merged(v, parts_bytes(packed_parts::<raw::Int32>(2u32, vs)) + rest, depth, limit, false, None) == location_merged(
            LocationView { span: v.span + vs, ..v },
            rest,
            depth, limit, false, None,
        ),
{
    if vs.len() == 0 {
        assert(parts_bytes(packed_parts::<raw::Int32>(2u32, vs)) + rest =~= rest);
        assert(v.span + vs =~= v.span);
    } else {
        lemma_packed_bytes_read::<raw::Int32>(2u32, vs, rest);
        lemma_tag_value(2u32, WireType::LengthDelimited);
        let s = parts_bytes(packed_parts::<raw::Int32>(2u32, vs)) + rest;
        let hl = parts_bytes(packed_parts::<raw::Int32>(2u32, vs)).len() as int;
        let k = varint_len(18u64) as int;
        let v2 = LocationView { span: v.span + vs, ..v };
        lemma_location_step(v, s, k, 18u32, hl - k, v2, depth, limit);
    }
}

/// Reading the values written unpacked as field `leading_detached_comments` of a `Location` adds the values.
proof fn lemma_location_read_leading_detached_comments(v: LocationView, vs: Seq<Seq<char>>, rest: Seq<u8>, depth: nat, limit: nat)
    requires
        forall|i: int| 0 <= i < vs.len() ==> <raw::String as Value>::encodable(#[trigger] vs[i]),
    ensures
        location_merged(v, parts_bytes(unpacked_parts::<raw::String>(6u32, vs)) + rest, depth, limit, false, None) == location_merged(
            LocationView { leading_detached_comments: v.leading_detached_comments + vs, ..v },
            rest,
            depth, limit, false, None,
        ),
    decreases vs.len(),
{
    if vs.len() == 0 {
        assert(parts_bytes(unpacked_parts::<raw::String>(6u32, vs)) + rest =~= rest);
        assert(v.leading_detached_comments + vs =~= v.leading_detached_comments);
    } else {
        let x = vs[0];
        let tail = vs.drop_first();
        assert forall|i: int| 0 <= i < tail.len() implies <raw::String as Value>::encodable(#[trigger] tail[i]) by {
            assert(tail[i] == vs[i + 1]);
        }
        lemma_unpacked_front::<raw::String>(6u32, vs);
        lemma_parts_bytes_append(field_parts::<raw::String>(6u32, x), unpacked_parts::<raw::String>(6u32, tail));
        let after = parts_bytes(unpacked_parts::<raw::String>(6u32, tail)) + rest;
        let s = parts_bytes(unpacked_parts::<raw::String>(6u32, vs)) + rest;
        assert(s =~= parts_bytes(field_parts::<raw::String>(6u32, x)) + after);
        lemma_field_bytes_read::<raw::String>(6u32, x, after);
        lemma_tag_value(6u32, WireType::LengthDelimited);
        let hl = parts_bytes(field_parts::<raw::String>(6u32, x)).len() as int;
        let k = varint_len(50u64) as int;
        let v2 = LocationView { leading_detached_comments: v.leading_detached_comments + seq![x], ..v };
        lemma_location_step(v, s, k, 50u32, hl - k, v2, depth, limit);
        lemma_location_read_leading_detached_comments(v2, tail, rest, depth, limit);
        assert(v.leading_detached_comments + seq![x] + tail =~= v.leading_detached_comments + vs);
    }
}

/// Reading the field `leading_comments` of a `Location` written from `o` sets it to `o`, whatever it held; nothing
/// is written, and nothing changes, for `None`.
proof fn lemma_location_read_leading_comments(d: LocationView, o: Option<Seq<char>>, rest: Seq<u8>, depth: nat, limit: nat)
    requires
        parts_encodable(opt_field_parts::<raw::String>(3u32, o)),
    ensures
        location_merged(d, parts_bytes(opt_field_parts::<raw::String>(3u32, o)) + rest, depth, limit, false, None) == location_merged(if o is Some { LocationView { leading_comments: o, ..d } } else { d }, rest, depth, limit, false, None),
{
    match o {
        None => {
            assert(parts_bytes(opt_field_parts::<raw::String>(3u32, o)) + rest =~= rest);
        },
        Some(x) => {
            let p = field_parts::<raw::String>(3u32, x);
            assert(p[1].0);
            let s = parts_bytes(p) + rest;
            lemma_field_bytes_read::<raw::String>(3u32, x, rest);
            lemma_tag_value(3u32, WireType::LengthDelimited);
            let hl = parts_bytes(p).len() as int;
            let k = varint_len(26u64) as int;
            let v2 = LocationView { leading_comments: Some(x), ..d };
            lemma_location_step(d, s, k, 26u32, hl - k, v2, depth, limit);
        },
    }
}

/// Reading the field `trailing_comments` of a `Location` written from `o` sets it to `o`, whatever it held; nothing
/// is written, and nothing changes, for `None`.
proof fn lemma_location_read_trailing_comments(d: LocationView, o: Option<Seq<char>>, rest: Seq<u8>, depth: nat, limit: nat)
    requires
        parts_encodable(opt_field_parts::<raw::String>(4u32, o)),
    ensures
        location_merged(d, parts_bytes(opt_field_parts::<raw::String>(4u32, o)) + rest, depth, limit, false, None) == location_merged(if o is Some { LocationView { trailing_comments: o, ..d } } else { d }, rest, depth, limit, false, None),
{
    match o {
        None => {
            assert(parts_bytes(opt_field_parts::<raw::String>(4u32, o)) + rest =~= rest);
        },
        Some(x) => {
            let p = field_parts::<raw::String>(4u32, x);
            assert(p[1].0);
            let s = parts_bytes(p) + rest;
            lemma_field_bytes_read::<raw::String>(4u32, x, rest);
            lemma_tag_value(4u32, WireType::LengthDelimited);
            let hl = parts_bytes(p).len() as int;
            let k = varint_len(34u64) as int;
            let v2 = LocationView { trailing_comments: Some(x), ..d };
            lemma_location_step(d, s, k, 34u32, hl - k, v2, depth, limit);
        },
    }
}

/// Reading unknown field values written one after the other into a `Location`, none with the tag
/// of one of its fields, adds them to its unknown fields.
proof fn lemma_location_read_unknown(v: LocationView, ps: Seq<(u32, FieldValue)>, rest: Seq<u8>, depth: nat, limit: nat)
    requires
        forall|k: int| 0 <= k < ps.len() ==> value_readable(#[trigger] ps[k].0, ps[k].1) && !location_known_tag(
            tag_value(ps[k].0, field_value_wire_type(ps[k].1)),
        ),
    ensures
        location_merged(v, parts_bytes(pairs_parts(ps)) + rest, depth, limit, false, None) == location_merged(
            LocationView { unknown_fields: push_pairs(v.unknown_fields, ps), ..v },
            rest,
            depth, limit, false, None,
        ),
    decreases ps.len(),
{
    if ps.len() == 0 {
        assert(parts_bytes(pairs_parts(ps)) + rest =~= rest);
    } else {
        let n = ps[0].0;
        let fv = ps[0].1;
        let tail = ps.drop_first();
        assert forall|k: int| 0 <= k < tail.len() implies value_readable(#[trigger] tail[k].0, tail[k].1) && !location_known_tag(
            tag_value(tail[k].0, field_value_wire_type(tail[k].1)),
        ) by {
            assert(tail[k] == ps[k + 1]);
        }
        assert(value_readable(ps[0].0, ps[0].1));
        lemma_parts_bytes_append(field_value_parts(n, fv), pairs_parts(tail));
        let after = parts_bytes(pairs_parts(tail)) + rest;
        let s = parts_bytes(pairs_parts(ps)) + rest;
        assert(s =~= parts_bytes(field_value_parts(n, fv)) + after);
        lemma_read_value_bytes(n, fv, after);
        let t = tag_value(n, field_value_wire_type(fv));
        let hl = parts_bytes(field_value_parts(n, fv)).len() as int;
        let k = varint_len(t as u64) as int;
        let v2 = LocationView { unknown_fields: view_push(v.unknown_fields, n, fv), ..v };
        lemma_location_step(v, s, k, t, hl - k, v2, depth, limit);
        lemma_location_read_unknown(v2, tail, rest, depth, limit);
    }
}

/// The writability of the parts of a `Location` is that of each field's parts.
proof fn lemma_location_parts_encodable(v: LocationView)
    ensures
        parts_encodable(location_parts(v)) == (parts_encodable(packed_parts::<raw::Int32>(1u32, v.path)) && parts_encodable(packed_parts::<raw::Int32>(2u32, v.span)) && parts_encodable(opt_field_parts::<raw::String>(3u32, v.leading_comments)) && parts_encodable(opt_field_parts::<raw::String>(4u32, v.trailing_comments)) && parts_encodable(unpacked_parts::<raw::String>(6u32, v.leading_detached_comments)) && parts_encodable(set_parts(v.unknown_fields))),
{
    reveal(location_parts);
    let p0 = packed_parts::<raw::Int32>(1u32, v.path);
    let p1 = packed_parts::<raw::Int32>(2u32, v.span);
    let p2 = opt_field_parts::<raw::String>(3u32, v.leading_comments);
    let p3 = opt_field_parts::<raw::String>(4u32, v.trailing_comments);
    let p4 = unpacked_parts::<raw::String>(6u32, v.leading_detached_comments);
    let p5 = set_parts(v.unknown_fields);
    let q5 = p5;
    let q4 = p4 + q5;
    lemma_parts_encodable_two(p4, q5);
    let q3 = p3 + q4;
    lemma_parts_encodable_two(p3, q4);
    let q2 = p2 + q3;
    lemma_parts_encodable_two(p2, q3);
    let q1 = p1 + q2;
    lemma_parts_encodable_two(p1, q2);
    let q0 = p0 + q1;
    lemma_parts_encodable_two(p0, q1);
    assert(location_parts(v) == q0);
}

/// The bytes of the parts of a `Location` are those of each field's parts, one after the other.
proof fn lemma_location_parts_bytes(v: LocationView)
    ensures
        parts_bytes(location_parts(v)) == parts_bytes(packed_parts::<raw::Int32>(1u32, v.path)) + (parts_bytes(packed_parts::<raw::Int32>(2u32, v.span)) + (parts_bytes(opt_field_parts::<raw::String>(3u32, v.leading_comments)) + (parts_bytes(opt_field_parts::<raw::String>(4u32, v.trailing_comments)) + (parts_bytes(unpacked_parts::<raw::String>(6u32, v.leading_detached_comments)) + parts_bytes(set_parts(v.unknown_fields)))))),
{
    reveal(location_parts);
    let p0 = packed_parts::<raw::Int32>(1u32, v.path);
    let p1 = packed_parts::<raw::Int32>(2u32, v.span);
    let p2 = opt_field_parts::<raw::String>(3u32, v.leading_comments);
    let p3 = opt_field_parts::<raw::String>(4u32, v.trailing_comments);
    let p4 = unpacked_parts::<raw::String>(6u32, v.leading_detached_comments);
    let p5 = set_parts(v.unknown_fields);
    let q5 = p5;
    let q4 = p4 + q5;
    lemma_parts_bytes_append(p4, q5);
    let q3 = p3 + q4;
    lemma_parts_bytes_append(p3, q4);
    let q2 = p2 + q3;
    lemma_parts_bytes_append(p2, q3);
    let q1 = p1 + q2;
    lemma_parts_bytes_append(p1, q2);
    let q0 = p0 + q1;
    lemma_parts_bytes_append(p0, q1);
    assert(location_parts(v) == q0);
}

/// The message a `Location` `d` becomes when `v` is merged into it: each field `v` holds once
/// replaces the one `d` holds, the values of each repeated field of `v` follow those of `d`,
/// and the unknown fields of `v` are added to those of `d`, field number by field number.
pub open spec fn location_merge_view(d: LocationView, v: LocationView) -> LocationView {
    LocationView { path: d.path + v.path, span: d.span + v.span, leading_comments: newer_or(v.leading_comments, d.leading_comments), trailing_comments: newer_or(v.trailing_comments, d.trailing_comments), leading_detached_comments: d.leading_detached_comments + v.leading_detached_comments, unknown_fields: view_merge(d.unknown_fields, v.unknown_fields) }
}

/// Reading the bytes of the parts of a `Location` `v`, field by field, into `d` merges `v` into `d`.
#[verifier::spinoff_prover]
#[verifier::rlimit(60)]
proof fn lemma_location_merge_all(d: LocationView, v: LocationView, depth: nat, limit: nat)
    requires
        parts_encodable(packed_parts::<raw::Int32>(1u32, v.path)),
        parts_encodable(packed_parts::<raw::Int32>(2u32, v.span)),
        parts_encodable(opt_field_parts::<raw::String>(3u32, v.leading_comments)),
        parts_encodable(opt_field_parts::<raw::String>(4u32, v.trailing_comments)),
        parts_encodable(unpacked_parts::<raw::String>(6u32, v.leading_detached_comments)),
        location_roundtrips(v, depth, limit),
        parts_bytes(location_parts(v)) == parts_bytes(packed_parts::<raw::Int32>(1u32, v.path)) + (parts_bytes(packed_parts::<raw::Int32>(2u32, v.span)) + (parts_bytes(opt_field_parts::<raw::String>(3u32, v.leading_comments)) + (parts_bytes(opt_field_parts::<raw::String>(4u32, v.trailing_comments)) + (parts_bytes(unpacked_parts::<raw::String>(6u32, v.leading_detached_comments)) + parts_bytes(set_parts(v.unknown_fields)))))),
    ensures
        location_merged(d, parts_bytes(location_parts(v)), depth, limit, false, None) == Ok::<LocationView, ReadError>(location_merge_view(d, v)),
{
    let p0 = packed_parts::<raw::Int32>(1u32, v.path);
    let p1 = packed_parts::<raw::Int32>(2u32, v.span);
    let p2 = opt_field_parts::<raw::String>(3u32, v.leading_comments);
    let p3 = opt_field_parts::<raw::String>(4u32, v.trailing_comments);
    let p4 = unpacked_parts::<raw::String>(6u32, v.leading_detached_comments);
    let p5 = set_parts(v.unknown_fields);
    let b0 = parts_bytes(p0);
    let b1 = parts_bytes(p1);
    let b2 = parts_bytes(p2);
    let b3 = parts_bytes(p3);
    let b4 = parts_bytes(p4);
    let b5 = parts_bytes(p5);
    let r5 = b5;
    let r4 = b4 + r5;
    let r3 = b3 + r4;
    let r2 = b2 + r3;
    let r1 = b1 + r2;
    let r0 = b0 + r1;
    let d0 = d;
    let d1 = LocationView { path: d.path + v.path, ..d0 };
    assert(location_merged(d0, r0, depth, limit, false, None) == location_merged(d1, r1, depth, limit, false, None)) by {
        if v.path.len() > 0 {
            assert(p0[0].0);
        }
        lemma_location_read_path(d0, v.path, r1, depth, limit);
        assert(LocationView { path: d0.path + v.path, ..d0 } == d1);
    }
    let d2 = LocationView { span: d.span + v.span, ..d1 };
    assert(location_merged(d1, r1, depth, limit, false, None) == location_merged(d2, r2, depth, limit, false, None)) by {
        if v.span.len() > 0 {
            assert(p1[0].0);
        }
        lemma_location_read_span(d1, v.span, r2, depth, limit);
        assert(LocationView { span: d1.span + v.span, ..d1 } == d2);
    }
    let d3 = LocationView { leading_comments: newer_or(v.leading_comments, d.leading_comments), ..d2 };
    assert(location_merged(d2, r2, depth, limit, false, None) == location_merged(d3, r3, depth, limit, false, None)) by {
        lemma_location_read_leading_comments(d2, v.leading_comments, r3, depth, limit);
        assert((if v.leading_comments is Some { LocationView { leading_comments: v.leading_comments, ..d2 } } else { d2 }) == d3);
    }
    let d4 = LocationView { trailing_comments: newer_or(v.trailing_comments, d.trailing_comments), ..d3 };
    assert(location_merged(d3, r3, depth, limit, false, None) == location_merged(d4, r4, depth, limit, false, None)) by {
        lemma_location_read_trailing_comments(d3, v.trailing_comments, r4, depth, limit);
        assert((if v.trailing_comments is Some { LocationView { trailing_comments: v.trailing_comments, ..d3 } } else { d3 }) == d4);
    }
    let d5 = LocationView { leading_detached_comments: d.leading_detached_comments + v.leading_detached_comments, ..d4 };
    assert(location_merged(d4, r4, depth, limit, false, None) == location_merged(d5, r5, depth, limit, false, None)) by {
        lemma_unpacked_parts_encodable::<raw::String>(6u32, v.leading_detached_comments);
        lemma_location_read_leading_detached_comments(d4, v.leading_detached_comments, r5, depth, limit);
        assert(LocationView { leading_detached_comments: d4.leading_detached_comments + v.leading_detached_comments, ..d4 } == d5);
    }
    let ps = set_pairs(v.unknown_fields);
    assert(location_merged(d5, r5, depth, limit, false, None) == Ok::<LocationView, ReadError>(location_merge_view(d, v))) by {
        lemma_set_pairs(v.unknown_fields, d.unknown_fields);
        lemma_entries_readable(v.unknown_fields);
        assert forall|k: int| 0 <= k < ps.len() implies value_readable(#[trigger] ps[k].0, ps[k].1) && !location_known_tag(
            tag_value(ps[k].0, field_value_wire_type(ps[k].1)),
        ) by {
            assert(!location_known_tag(tag_value(set_pairs(v.unknown_fields)[k].0, field_value_wire_type(set_pairs(v.unknown_fields)[k].1))));
        }
        lemma_location_read_unknown(d5, ps, Seq::empty(), depth, limit);
        assert(b5 + Seq::<u8>::empty() =~= b5);
        let dl = LocationView { unknown_fields: push_pairs(d5.unknown_fields, ps), ..d5 };
        assert(dl == location_merge_view(d, v));
    }
}

/// Reading the bytes of the parts of a `Location`, field by field, gives the message back.
proof fn lemma_location_read_all(v: LocationView, depth: nat, limit: nat)
    requires
        parts_encodable(packed_parts::<raw::Int32>(1u32, v.path)),
        parts_encodable(packed_parts::<raw::Int32>(2u32, v.span)),
        parts_encodable(opt_field_parts::<raw::String>(3u32, v.leading_comments)),
        parts_encodable(opt_field_parts::<raw::String>(4u32, v.trailing_comments)),
        parts_encodable(unpacked_parts::<raw::String>(6u32, v.leading_detached_comments)),
        location_roundtrips(v, depth, limit),
        parts_bytes(location_parts(v)) == parts_bytes(packed_parts::<raw::Int32>(1u32, v.path)) + (parts_bytes(packed_parts::<raw::Int32>(2u32, v.span)) + (parts_bytes(opt_field_parts::<raw::String>(3u32, v.leading_comments)) + (parts_bytes(opt_field_parts::<raw::String>(4u32, v.trailing_comments)) + (parts_bytes(unpacked_parts::<raw::String>(6u32, v.leading_detached_comments)) + parts_bytes(set_parts(v.unknown_fields)))))),
    ensures
        location_merged(location_default(), parts_bytes(location_parts(v)), depth, limit, false, None) == Ok::<LocationView, ReadError>(v),
{
    lemma_location_merge_all(location_default(), v, depth, limit);
    lemma_entries_readable(v.unknown_fields);
    lemma_merge_into_empty(v.unknown_fields);
    assert(Seq::empty() + v.path =~= v.path);
    assert(Seq::empty() + v.span =~= v.span);
    assert(Seq::empty() + v.leading_detached_comments =~= v.leading_detached_comments);
    assert(location_merge_view(location_default(), v) == v);
}

/// Merging what a `Location` `v` writes into a message `d` merges `v` into `d`: each field `v`
/// holds replaces the one `d` holds, repeated values follow those `d` holds, and unknown fields
/// are added to those of `d`, where `d` holds none of the message fields `v` holds (those are
/// merged into each other), at nesting depth `depth` of a reader with recursion limit `limit`
/// that keeps unknown fields, outside any group, where `v` is read back as written.
pub proof fn lemma_location_merge_written(d: LocationView, v: LocationView, depth: nat, limit: nat)
    requires
        parts_encodable(location_parts(v)),
        location_roundtrips(v, depth, limit),
    ensures
        location_merged(d, parts_bytes(location_parts(v)), depth, limit, false, None) == Ok::<LocationView, ReadError>(location_merge_view(d, v)),
{
    lemma_location_parts_encodable(v);
    lemma_location_parts_bytes(v);
    lemma_location_merge_all(d, v, depth, limit);
}

/// A `Location` is read back as it is written: merging the bytes of its parts into a default
/// message, at nesting depth `depth` of a reader with recursion limit `limit` that keeps
/// unknown fields, outside any group, gives the message back, where it is read back as written.
pub proof fn lemma_location_roundtrip(v: LocationView, depth: nat, limit: nat)
    requires
        parts_encodable(location_parts(v)),
        location_roundtrips(v, depth, limit),
    ensures
        location_merged(location_default(), parts_bytes(location_parts(v)), depth, limit, false, None) == Ok::<LocationView, ReadError>(v),
{
    lemma_location_parts_encodable(v);
    lemma_location_parts_bytes(v);
    lemma_location_read_all(v, depth, limit);
}

/// The `GeneratedCodeInfo` message of `descriptor.proto`.
#[derive(Clone, Debug)]
pub struct GeneratedCodeInfo {
    annotation: RepeatedField<Annotation>,
    unknown_fields: UnknownFieldSet,
}

/// The view of a `GeneratedCodeInfo`: its fields, and its unknown fields.
pub struct GeneratedCodeInfoView {
    /// The `annotation` field.
    pub annotation: Seq<AnnotationView>,
    /// The unknown fields.
    pub unknown_fields: Seq<(u32, Seq<FieldValue>)>,
}

/// The view of a `GeneratedCodeInfo` value.
pub closed spec fn generated_code_info_view(m: GeneratedCodeInfo) -> GeneratedCodeInfoView
{
    GeneratedCodeInfoView {
        annotation: annotation_seq_view(m.annotation@),
        unknown_fields: m.unknown_fields@,
    }
}

/// The view of a `GeneratedCodeInfo` with no field set.
pub open spec fn generated_code_info_default() -> GeneratedCodeInfoView {
    GeneratedCodeInfoView {
        annotation: Seq::empty(),
        unknown_fields: Seq::empty(),
    }
}

impl View for GeneratedCodeInfo {
    type V = GeneratedCodeInfoView;

    open spec fn view(&self) -> GeneratedCodeInfoView {
        generated_code_info_view(*self)
    }
}

impl Default for GeneratedCodeInfo {
    /// A message with no field set.
    fn default() -> (r: GeneratedCodeInfo)
        ensures
            r@ == generated_code_info_default(),
    {
        let r = GeneratedCodeInfo {
            annotation: Vec::new(),
            unknown_fields: UnknownFieldSet::new(),
        };
        proof {
            assert(annotation_seq_view(r.annotation@) =~= Seq::empty());
            assert(r@ =~= generated_code_info_default());
        }
        r
    }
}

impl GeneratedCodeInfo {
    /// Gets the values of the `annotation` field.
    pub fn annotation(&self) -> (r: &RepeatedField<Annotation>)
        ensures
            annotation_seq_view(r@) == self@.annotation,
    {
        &self.annotation
    }

    /// Gets the values of the `annotation` field for changing them.
    pub fn annotation_mut(&mut self) -> (r: &mut RepeatedField<Annotation>)
        ensures
            annotation_seq_view((*r)@) == old(self)@.annotation,
            final(self)@ == (GeneratedCodeInfoView { annotation: annotation_seq_view((*final(r))@), ..old(self)@ }),
    {
        &mut self.annotation
    }
}

/// The parts a `GeneratedCodeInfo` is written as: its fields that are set, in field number order, then its
/// unknown fields.
#[verifier::opaque]
pub open spec fn generated_code_info_parts(v: GeneratedCodeInfoView) -> Seq<(bool, Seq<u8>)>
{
    annotation_seq_parts(1u32, v.annotation) + (set_parts(v.unknown_fields))
}

/// What reading the field with tag value `t` from the front of `rest` into `v` gives: the
/// number of bytes read and the message after, or the error.
pub open spec fn generated_code_info_field_read(v: GeneratedCodeInfoView, t: u32, rest: Seq<u8>, depth: nat, limit: nat, skip: bool, eg: Option<Tag>) -> ReadResult<(int, GeneratedCodeInfoView)>
{
    if t == 10u32 {
        match length_delimited_read(rest) { Err(e) => Err(e), Ok((m, b)) => if depth >= limit { Err(ReadError::RecursionLimitExceeded) } else { match annotation_merged(annotation_default(), b, depth + 1, limit, skip, eg) { Ok(y) => Ok((m, GeneratedCodeInfoView { annotation: v.annotation.push(y), ..v })), Err(e) => Err(e) } } }
    } else {
        match unknown_field_read(v.unknown_fields, t, rest, depth, limit, skip, eg) {
            Ok((m, u)) => Ok((m, GeneratedCodeInfoView { unknown_fields: u, ..v })),
            Err(e) => Err(e),
        }
    }
}

/// What reading all of `s` into `v` as `GeneratedCodeInfo` fields gives: the message after, or the error.
/// `depth` and `limit` are the reader's depth and recursion limit, `skip` whether it skips
/// unknown fields, and `eg` the end tag of the group it is in.
pub open spec fn generated_code_info_merged(v: GeneratedCodeInfoView, s: Seq<u8>, depth: nat, limit: nat, skip: bool, eg: Option<Tag>) -> ReadResult<GeneratedCodeInfoView>
    decreases s.len(),
{
    if s.len() == 0 {
        Ok(v)
    } else {
        match varint_read(s) {
            Err(e) => Err(e),
            Ok((n, w)) => if n < 1 || n > s.len() {
                Err(eof())
            } else {
                match generated_code_info_field_read(v, w as u32, s.skip(n), depth, limit, skip, eg) {
                    Err(e) => Err(e),
                    Ok((m, v2)) => if m < 0 || n + m > s.len() {
                        Err(eof())
                    } else {
                        generated_code_info_merged(v2, s.skip(n + m), depth, limit, skip, eg)
                    },
                }
            },
        }
    }
}

impl GeneratedCodeInfo {
    /// Gets the unknown fields of the message.
    pub fn unknown_fields(&self) -> (r: &UnknownFieldSet)
        ensures
            r@ == self@.unknown_fields,
    {
        &self.unknown_fields
    }

    /// Gets the unknown fields of the message for changing them.
    pub fn unknown_fields_mut(&mut self) -> (r: &mut UnknownFieldSet)
        ensures
            (*r)@ == old(self)@.unknown_fields,
            final(self)@ == (GeneratedCodeInfoView { unknown_fields: (*final(r))@, ..old(self)@ }),
    {
        &mut self.unknown_fields
    }

    /// Returns whether the message is initialized: whether all its required fields are set.
    pub fn is_initialized(&self) -> (r: bool)
        ensures
            r,
    {
        if !crate::is_initialized(&self.annotation) {
            return false;
        }
        true
    }

    /// Calculates the size of the message as it is written: `None` if a part cannot be
    /// written or the size does not fit in a length.
    #[verifier::spinoff_prover]
    pub fn calculate_size(&self) -> (r: Option<Length>)
        ensures
            opt_length(r) == parts_size(generated_code_info_parts(self@)),
    {
        let ghost v = self@;
        let ghost all = generated_code_info_parts(v);
        let b0 = LengthBuilder::new();
        let ghost d0 = Seq::<(bool, Seq<u8>)>::empty();
        proof {
            reveal(generated_code_info_parts);
            assert(all =~= d0 + all);
        }
        let ghost p1 = annotation_seq_parts(1u32, v.annotation);
        let ghost rest1 = set_parts(v.unknown_fields);
        proof {
            assert(all == d0 + (p1 + rest1));
            assert(d0 + (p1 + rest1) =~= d0 + p1 + rest1);
        }
        let r1 = annotation_values_size(&self.annotation, b0, FieldNumber::new_unchecked(1));
        proof {
            lemma_size_chain(0, d0, p1, Some(b0), r1);
            if r1 is None {
                lemma_size_chain(0, d0 + p1, rest1, r1, r1);
            }
        }
        let b1 = match r1 {
            Some(b) => b,
            None => return None,
        };
        let ghost d1 = d0 + p1;
        let ghost p2 = set_parts(v.unknown_fields);
        let ghost rest2 = Seq::<(bool, Seq<u8>)>::empty();
        proof {
            assert(all == d1 + p2);
            assert(p2 + rest2 =~= p2);
            assert(d1 + (p2 + rest2) =~= d1 + p2 + rest2);
        }
        let r2 = self.unknown_fields.calculate_size(b1);
        proof {
            lemma_size_chain(0, d1, p2, Some(b1), r2);
            if r2 is None {
                lemma_size_chain(0, d1 + p2, rest2, r2, r2);
            }
        }
        let b2 = match r2 {
            Some(b) => b,
            None => return None,
        };
        let ghost d2 = d1 + p2;
        Some(b2.build())
    }

    /// Writes the message to the writer: its fields that are set, in field number order, then
    /// its unknown fields.
    #[verifier::spinoff_prover]
    pub fn write_to(&self, output: &mut CodedWriter) -> (r: WriteResult)
        ensures
            (final(output).written(), r) == parts_written(old(output).written(), old(output).capacity(), generated_code_info_parts(self@)),
            final(output).capacity() == old(output).capacity(),
            (*final(final(output).target()))@ == (*final(old(output).target()))@,
    {
        let ghost v = self@;
        let ghost all = generated_code_info_parts(v);
        let ghost start = output.written();
        let ghost cap = output.capacity();
        let ghost d0 = Seq::<(bool, Seq<u8>)>::empty();
        proof {
            reveal(generated_code_info_parts);
            assert(all =~= d0 + all);
        }
        let ghost p1 = annotation_seq_parts(1u32, v.annotation);
        let ghost rest1 = set_parts(v.unknown_fields);
        proof {
            assert(all == d0 + (p1 + rest1));
            assert(d0 + (p1 + rest1) =~= d0 + p1 + rest1);
            lemma_parts_written_append(start, cap, d0, p1);
            lemma_parts_written_append(start, cap, d0 + p1, rest1);
        }
        match write_annotation_values(&self.annotation, output, FieldNumber::new_unchecked(1)) {
            Ok(()) => {},
            Err(e) => return Err(e),
        }
        let ghost d1 = d0 + p1;
        let ghost p2 = set_parts(v.unknown_fields);
        let ghost rest2 = Seq::<(bool, Seq<u8>)>::empty();
        proof {
            assert(all == d1 + p2);
            assert(p2 + rest2 =~= p2);
            assert(d1 + (p2 + rest2) =~= d1 + p2 + rest2);
            lemma_parts_written_append(start, cap, d1, p2);
            lemma_parts_written_append(start, cap, d1 + p2, rest2);
        }
        match self.unknown_fields.write_to(output) {
            Ok(()) => {},
            Err(e) => return Err(e),
        }
        let ghost d2 = d1 + p2;
        proof {
            assert(all =~= d2 + Seq::<(bool, Seq<u8>)>::empty());
            assert(all == d2);
            lemma_ok_unit(parts_written(start, cap, all).1);
        }
        Ok(())
    }

    /// Reads the value of the field whose tag value `t` was just read into the message.
    #[verifier::spinoff_prover]
    fn merge_field(&mut self, t: u32, input: &mut CodedReader) -> (r: ReadResult<()>)
        ensures
            match generated_code_info_field_read(old(self)@, t, old(input).available(), old(input).depth(), old(input).recursion_limit(), skips(*old(input)), old(input).end_group_view()) {
                Ok((m, v2)) => r is Ok && final(self)@ == v2 && m >= 0 && final(input).position()
                    == old(input).position() + m && same_state(*old(input), *final(input)),
                Err(e) => r == Err::<(), ReadError>(e) && same_config(*old(input), *final(input)),
            },
    {
        let rem0 = input.remaining();
        let ghost rest = input.available();
        if t == 10u32 {
            proof {
                lemma_length_delimited_read_len(rest);
            }
            input.set_last_tag(Some(Tag::new(FieldNumber::new_unchecked(1), WireType::LengthDelimited)));
            let mut y = Annotation::default();
            match merge_annotation_delimited(&mut y, input) {
                Ok(()) => {},
                Err(e) => return Err(e),
            }
            let ghost old_values = self.annotation@;
            self.annotation.push(y);
            proof {
                assert(self.annotation@.subrange(0, self.annotation@.len() - 1) =~= old_values);
            }
        } else {
            let tag = match Tag::try_from(t) {
                Ok(tag) => tag,
                Err(_) => return Err(ReadError::InvalidTag(t)),
            };
            input.set_last_tag(Some(tag));
            match self.unknown_fields.try_add_field_from(input) {
                Ok(TryRead::Consumed) => {},
                Ok(TryRead::Yielded) => match input.skip() {
                    Ok(()) => {},
                    Err(e) => return Err(e),
                },
                Err(e) => return Err(e),
            }
        }
        let rem1 = input.remaining();
        Ok(())
    }

    /// Merges the message with fields read from the reader, up to its limit. Scalar fields
    /// read replace those set, message fields are merged, repeated fields are added to,
    /// and unknown fields are stored or skipped as the reader says. On an error the message
    /// may hold some of the fields read before it.
    #[verifier::spinoff_prover]
    #[verifier::rlimit(50)]
    pub fn merge_from(&mut self, input: &mut CodedReader) -> (r: ReadResult<()>)
        ensures
            merge_outcome(generated_code_info_merged(old(self)@, old(input).available(), old(input).depth(), old(input).recursion_limit(), skips(*old(input)), old(input).end_group_view()), final(self)@, *old(input), *final(input), r),
    {
        let rem0 = input.remaining();
        let ghost start = *input;
        let ghost total = generated_code_info_merged(self@, input.available(), input.depth(), input.recursion_limit(), skips(*input), input.end_group_view());
        loop
            invariant
                start == *old(input),
                same_state(start, *input),
                0 <= start.position() <= input.position(),
                input.limit_end() <= input.input().len(),
                total == generated_code_info_merged(old(self)@, start.available(), start.depth(), start.recursion_limit(), skips(start), start.end_group_view()),
                total == generated_code_info_merged(self@, input.available(), start.depth(), start.recursion_limit(), skips(start), start.end_group_view()),
            decreases input.available().len(),
        {
            let ghost s = input.available();
            let ghost before = *input;
            let ghost v = self@;
            let t = match input.read_field() {
                Ok(Some(t)) => t,
                Ok(None) => return Ok(()),
                Err(e) => return Err(e),
            };
            let rem1 = input.remaining();
            let ghost n = input.position() - before.position();
            proof {
                lemma_varint_read_len(s);
                assert(input.available() =~= s.skip(n));
            }
            let ghost mid = *input;
            match self.merge_field(t, input) {
                Ok(()) => {},
                Err(e) => return Err(e),
            }
            let rem2 = input.remaining();
            proof {
                let m = input.position() - mid.position();
                assert(input.available() =~= s.skip(n + m));
            }
        }
    }
}

impl crate::Message for GeneratedCodeInfo {
    open spec fn merged(v: GeneratedCodeInfoView, s: Seq<u8>, depth: nat, limit: nat, skip: bool, eg: Option<Tag>) -> ReadResult<GeneratedCodeInfoView> {
        generated_code_info_merged(v, s, depth, limit, skip, eg)
    }

    open spec fn parts(v: GeneratedCodeInfoView) -> Seq<(bool, Seq<u8>)> {
        generated_code_info_parts(v)
    }

    open spec fn initialized(v: GeneratedCodeInfoView) -> bool {
        true
    }

    open spec fn unknown_fields_of(v: GeneratedCodeInfoView) -> Seq<(u32, Seq<FieldValue>)> {
        v.unknown_fields
    }

    open spec fn with_unknown_fields(v: GeneratedCodeInfoView, u: Seq<(u32, Seq<FieldValue>)>) -> GeneratedCodeInfoView {
        GeneratedCodeInfoView { unknown_fields: u, ..v }
    }

    fn merge_from(&mut self, input: &mut CodedReader) -> (r: ReadResult<()>) {
        GeneratedCodeInfo::merge_from(self, input)
    }

    fn calculate_size(&self) -> (r: Option<Length>) {
        GeneratedCodeInfo::calculate_size(self)
    }

    fn write_to(&self, output: &mut CodedWriter) -> (r: WriteResult) {
        GeneratedCodeInfo::write_to(self, output)
    }

    fn is_initialized(&self) -> (r: bool) {
        GeneratedCodeInfo::is_initialized(self)
    }

    fn unknown_fields(&self) -> (r: &UnknownFieldSet) {
        GeneratedCodeInfo::unknown_fields(self)
    }

    fn unknown_fields_mut(&mut self) -> (r: &mut UnknownFieldSet) {
        GeneratedCodeInfo::unknown_fields_mut(self)
    }
}

impl DebugMessage for GeneratedCodeInfo {
    open spec fn spec_full_name() -> Seq<char> {
        "google.protobuf.GeneratedCodeInfo"@
    }

    open spec fn spec_name() -> Seq<char> {
        "GeneratedCodeInfo"@
    }

    fn full_name() -> (r: &'static str) {
        "google.protobuf.GeneratedCodeInfo"
    }

    fn name() -> (r: &'static str) {
        "GeneratedCodeInfo"
    }
}

/// Whether `t` is the tag of a field a `GeneratedCodeInfo` reads.
pub open spec fn generated_code_info_known_tag(t: u32) -> bool {
    t == 10u32
}

/// Whether a `GeneratedCodeInfo` is read back as it is written, at nesting depth `depth` of a reader with
/// recursion limit `limit`: its messages are read back as written one level deeper, within
/// the limit; and its unknown fields are read back as written, none with the tag of one of
/// its fields.
pub open spec fn generated_code_info_roundtrips(v: GeneratedCodeInfoView, depth: nat, limit: nat) -> bool
{
    &&& (v.annotation.len() > 0 ==> depth < limit)
    &&& forall|i: int| 0 <= i < v.annotation.len() ==> annotation_roundtrips(#[trigger] v.annotation[i], depth + 1, limit)
    &&& set_readable(v.unknown_fields)
    &&& forall|k: int| 0 <= k < set_pairs(v.unknown_fields).len() ==> !generated_code_info_known_tag(tag_value(
        #[trigger] set_pairs(v.unknown_fields)[k].0,
        field_value_wire_type(set_pairs(v.unknown_fields)[k].1),
    ))
}

/// Reading a `GeneratedCodeInfo` field whose tag is read from the front of `s` and whose value is read after
/// it continues with the rest of `s`.
proof fn lemma_generated_code_info_step(v: GeneratedCodeInfoView, s: Seq<u8>, k: int, t: u32, m: int, v2: GeneratedCodeInfoView, depth: nat, limit: nat)
    requires
        varint_read(s) == Ok::<(int, u64), ReadError>((k, t as u64)),
        1 <= k <= s.len(),
        generated_code_info_field_read(v, t, s.skip(k), depth, limit, false, None) == Ok::<(int, GeneratedCodeInfoView), ReadError>((m, v2)),
        0 <= m,
        k + m <= s.len(),
    ensures
        generated_code_info_merged(v, s, depth, limit, false, None) == generated_code_info_merged(v2, s.skip(k + m), depth, limit, false, None),
{
    assert((t as u64) as u32 == t);
}

/// Reading the entries of `Annotation` values written as field `annotation` of a `GeneratedCodeInfo` adds the values.
#[verifier::spinoff_prover]
#[verifier::rlimit(60)]
proof fn lemma_generated_code_info_read_annotation(v: GeneratedCodeInfoView, ys: Seq<AnnotationView>, rest: Seq<u8>, depth: nat, limit: nat)
    requires
        parts_encodable(annotation_seq_parts(1u32, ys)),
        ys.len() > 0 ==> depth < limit,
        forall|i: int| 0 <= i < ys.len() ==> annotation_roundtrips(#[trigger] ys[i], depth + 1, limit),
    ensures
        generated_code_info_merged(v, parts_bytes(annotation_seq_parts(1u32, ys)) + rest, depth, limit, false, None) == generated_code_info_merged(
            GeneratedCodeInfoView { annotation: v.annotation + ys, ..v },
            rest,
            depth, limit, false, None,
        ),
    decreases ys.len(),
{
    if ys.len() == 0 {
        assert(parts_bytes(annotation_seq_parts(1u32, ys)) + rest =~= rest);
        assert(v.annotation + ys =~= v.annotation);
    } else {
        let y = ys[0];
        let tail = ys.drop_first();
        assert forall|i: int| 0 <= i < tail.len() implies annotation_roundtrips(#[trigger] tail[i], depth + 1, limit) by {
            assert(tail[i] == ys[i + 1]);
        }
        lemma_annotation_seq_parts_front(1u32, ys);
        let ep = entry_parts(1u32, annotation_parts(y));
        lemma_parts_encodable_two(ep, annotation_seq_parts(1u32, tail));
        lemma_parts_bytes_append(ep, annotation_seq_parts(1u32, tail));
        assert(ep[1].0);
        let after = parts_bytes(annotation_seq_parts(1u32, tail)) + rest;
        let s = parts_bytes(annotation_seq_parts(1u32, ys)) + rest;
        assert(s =~= parts_bytes(ep) + after);
        lemma_entry_bytes_read(1u32, annotation_parts(y), after);
        lemma_tag_value(1u32, WireType::LengthDelimited);
        lemma_annotation_roundtrip(y, depth + 1, limit);
        let hl = parts_bytes(ep).len() as int;
        let k = varint_len(10u64) as int;
        let v2 = GeneratedCodeInfoView { annotation: v.annotation.push(y), ..v };
        lemma_generated_code_info_step(v, s, k, 10u32, hl - k, v2, depth, limit);
        lemma_generated_code_info_read_annotation(v2, tail, rest, depth, limit);
        assert(v.annotation.push(y) + tail =~= v.annotation + ys);
    }
}

/// Reading unknown field values written one after the other into a `GeneratedCodeInfo`, none with the tag
/// of one of its fields, adds them to its unknown fields.
proof fn lemma_generated_code_info_read_unknown(v: GeneratedCodeInfoView, ps: Seq<(u32, FieldValue)>, rest: Seq<u8>, depth: nat, limit: nat)
    requires
        forall|k: int| 0 <= k < ps.len() ==> value_readable(#[trigger] ps[k].0, ps[k].1) && !generated_code_info_known_tag(
            tag_value(ps[k].0, field_value_wire_type(ps[k].1)),
        ),
    ensures
        generated_code_info_merged(v, parts_bytes(pairs_parts(ps)) + rest, depth, limit, false, None) == generated_code_info_merged(
            GeneratedCodeInfoView { unknown_fields: push_pairs(v.unknown_fields, ps), ..v },
            rest,
            depth, limit, false, None,
        ),
    decreases ps.len(),
{
    if ps.len() == 0 {
        assert(parts_bytes(pairs_parts(ps)) + rest =~= rest);
    } else {
        let n = ps[0].0;
        let fv = ps[0].1;
        let tail = ps.drop_first();
        assert forall|k: int| 0 <= k < tail.len() implies value_readable(#[trigger] tail[k].0, tail[k].1) && !generated_code_info_known_tag(
            tag_value(tail[k].0, field_value_wire_type(tail[k].1)),
        ) by {
            assert(tail[k] == ps[k + 1]);
        }
        assert(value_readable(ps[0].0, ps[0].1));
        lemma_parts_bytes_append(field_value_parts(n, fv), pairs_parts(tail));
        let after = parts_bytes(pairs_parts(tail)) + rest;
        let s = parts_bytes(pairs_parts(ps)) + rest;
        assert(s =~= parts_bytes(field_value_parts(n, fv)) + after);
        lemma_read_value_bytes(n, fv, after);
        let t = tag_value(n, field_value_wire_type(fv));
        let hl = parts_bytes(field_value_parts(n, fv)).len() as int;
        let k = varint_len(t as u64) as int;
        let v2 = GeneratedCodeInfoView { unknown_fields: view_push(v.unknown_fields, n, fv), ..v };
        lemma_generated_code_info_step(v, s, k, t, hl - k, v2, depth, limit);
        lemma_generated_code_info_read_unknown(v2, tail, rest, depth, limit);
    }
}

/// The writability of the parts of a `GeneratedCodeInfo` is that of each field's parts.
proof fn lemma_generated_code_info_parts_encodable(v: GeneratedCodeInfoView)
    ensures
        parts_encodable(generated_code_info_parts(v)) == (parts_encodable(annotation_seq_parts(1u32, v.annotation)) && parts_encodable(set_parts(v.unknown_fields))),
{
    reveal(generated_code_info_parts);
    let p0 = annotation_seq_parts(1u32, v.annotation);
    let p1 = set_parts(v.unknown_fields);
    let q1 = p1;
    let q0 = p0 + q1;
    lemma_parts_encodable_two(p0, q1);
    assert(generated_code_info_parts(v) == q0);
}

/// The bytes of the parts of a `GeneratedCodeInfo` are those of each field's parts, one after the other.
proof fn lemma_generated_code_info_parts_bytes(v: GeneratedCodeInfoView)
    ensures
        parts_bytes(generated_code_info_parts(v)) == parts_bytes(annotation_seq_parts(1u32, v.annotation)) + parts_bytes(set_parts(v.unknown_fields)),
{
    reveal(generated_code_info_parts);
    let p0 = annotation_seq_parts(1u32, v.annotation);
    let p1 = set_parts(v.unknown_fields);
    let q1 = p1;
    let q0 = p0 + q1;
    lemma_parts_bytes_append(p0, q1);
    assert(generated_code_info_parts(v) == q0);
}

/// The message a `GeneratedCodeInfo` `d` becomes when `v` is merged into it: each field `v` holds once
/// replaces the one `d` holds, the values of each repeated field of `v` follow those of `d`,
/// and the unknown fields of `v` are added to those of `d`, field number by field number.
pub open spec fn generated_code_info_merge_view(d: GeneratedCodeInfoView, v: GeneratedCodeInfoView) -> GeneratedCodeInfoView {
    GeneratedCodeInfoView { annotation: d.annotation + v.annotation, unknown_fields: view_merge(d.unknown_fields, v.unknown_fields) }
}

/// Reading the bytes of the parts of a `GeneratedCodeInfo` `v`, field by field, into `d` merges `v` into `d`.
#[verifier::spinoff_prover]
#[verifier::rlimit(60)]
proof fn lemma_generated_code_info_merge_all(d: GeneratedCodeInfoView, v: GeneratedCodeInfoView, depth: nat, limit: nat)
    requires
        parts_encodable(annotation_seq_parts(1u32, v.annotation)),
        generated_code_info_roundtrips(v, depth, limit),
        parts_bytes(generated_code_info_parts(v)) == parts_bytes(annotation_seq_parts(1u32, v.annotation)) + parts_bytes(set_parts(v.unknown_fields)),
    ensures
        generated_code_info_merged(d, parts_bytes(generated_code_info_parts(v)), depth, limit, false, None) == Ok::<GeneratedCodeInfoView, ReadError>(generated_code_info_merge_view(d, v)),
{
    let p0 = annotation_seq_parts(1u32, v.annotation);
    let p1 = set_parts(v.unknown_fields);
    let b0 = parts_bytes(p0);
    let b1 = parts_bytes(p1);
    let r1 = b1;
    let r0 = b0 + r1;
    let d0 = d;
    let d1 = GeneratedCodeInfoView { annotation: d.annotation + v.annotation, ..d0 };
    assert(generated_code_info_merged(d0, r0, depth, limit, false, None) == generated_code_info_merged(d1, r1, depth, limit, false, None)) by {
        lemma_generated_code_info_read_annotation(d0, v.annotation, r1, depth, limit);
        assert(GeneratedCodeInfoView { annotation: d0.annotation + v.annotation, ..d0 } == d1);
    }
    let ps = set_pairs(v.unknown_fields);
    assert(generated_code_info_merged(d1, r1, depth, limit, false, None) == Ok::<GeneratedCodeInfoView, ReadError>(generated_code_info_merge_view(d, v))) by {
        lemma_set_pairs(v.unknown_fields, d.unknown_fields);
        lemma_entries_readable(v.unknown_fields);
        assert forall|k: int| 0 <= k < ps.len() implies value_readable(#[trigger] ps[k].0, ps[k].1) && !generated_code_info_known_tag(
            tag_value(ps[k].0, field_value_wire_type(ps[k].1)),
        ) by {
            assert(!generated_code_info_known_tag(tag_value(set_pairs(v.unknown_fields)[k].0, field_value_wire_type(set_pairs(v.unknown_fields)[k].1))));
        }
        lemma_generated_code_info_read_unknown(d1, ps, Seq::empty(), depth, limit);
        assert(b1 + Seq::<u8>::empty() =~= b1);
        let dl = GeneratedCodeInfoView { unknown_fields: push_pairs(d1.unknown_fields, ps), ..d1 };
        assert(dl == generated_code_info_merge_view(d, v));
    }
}

/// Reading the bytes of the parts of a `GeneratedCodeInfo`, field by field, gives the message back.
proof fn lemma_generated_code_info_read_all(v: GeneratedCodeInfoView, depth: nat, limit: nat)
    requires
        parts_encodable(annotation_seq_parts(1u32, v.annotation)),
        generated_code_info_roundtrips(v, depth, limit),
        parts_bytes(generated_code_info_parts(v)) == parts_bytes(annotation_seq_parts(1u32, v.annotation)) + parts_bytes(set_parts(v.unknown_fields)),
    ensures
        generated_code_info_merged(generated_code_info_default(), parts_bytes(generated_code_info_parts(v)), depth, limit, false, None) == Ok::<GeneratedCodeInfoView, ReadError>(v),
{
    lemma_generated_code_info_merge_all(generated_code_info_default(), v, depth, limit);
    lemma_entries_readable(v.unknown_fields);
    lemma_merge_into_empty(v.unknown_fields);
    assert(Seq::empty() + v.annotation =~= v.annotation);
    assert(generated_code_info_merge_view(generated_code_info_default(), v) == v);
}

/// Merging what a `GeneratedCodeInfo` `v` writes into a message `d` merges `v` into `d`: each field `v`
/// holds replaces the one `d` holds, repeated values follow those `d` holds, and unknown fields
/// are added to those of `d`, where `d` holds none of the message fields `v` holds (those are
/// merged into each other), at nesting depth `depth` of a reader with recursion limit `limit`
/// that keeps unknown fields, outside any group, where `v` is read back as written.
pub proof fn lemma_generated_code_info_merge_written(d: GeneratedCodeInfoView, v: GeneratedCodeInfoView, depth: nat, limit: nat)
    requires
        parts_encodable(generated_code_info_parts(v)),
        generated_code_info_roundtrips(v, depth, limit),
    ensures
        generated_code_info_merged(d, parts_bytes(generated_code_info_parts(v)), depth, limit, false, None) == Ok::<GeneratedCodeInfoView, ReadError>(generated_code_info_merge_view(d, v)),
{
    lemma_generated_code_info_parts_encodable(v);
    lemma_generated_code_info_parts_bytes(v);
    lemma_generated_code_info_merge_all(d, v, depth, limit);
}

/// A `GeneratedCodeInfo` is read back as it is written: merging the bytes of its parts into a default
/// message, at nesting depth `depth` of a reader with recursion limit `limit` that keeps
/// unknown fields, outside any group, gives the message back, where it is read back as written.
pub proof fn lemma_generated_code_info_roundtrip(v: GeneratedCodeInfoView, depth: nat, limit: nat)
    requires
        parts_encodable(generated_code_info_parts(v)),
        generated_code_info_roundtrips(v, depth, limit),
    ensures
        generated_code_info_merged(generated_code_info_default(), parts_bytes(generated_code_info_parts(v)), depth, limit, false, None) == Ok::<GeneratedCodeInfoView, ReadError>(v),
{
    lemma_generated_code_info_parts_encodable(v);
    lemma_generated_code_info_parts_bytes(v);
    lemma_generated_code_info_read_all(v, depth, limit);
}

/// The `Annotation` message of `descriptor.proto`.
#[derive(Clone, Debug)]
pub struct Annotation {
    path: RepeatedField<i32>,
    source_file: Option<String>,
    begin: Option<i32>,
    end: Option<i32>,
    unknown_fields: UnknownFieldSet,
}

/// The view of a `Annotation`: its fields, and its unknown fields.
pub struct AnnotationView {
    /// The `path` field.
    pub path: Seq<i32>,
    /// The `source_file` field.
    pub source_file: Option<Seq<char>>,
    /// The `begin` field.
    pub begin: Option<i32>,
    /// The `end` field.
    pub end: Option<i32>,
    /// The unknown fields.
    pub unknown_fields: Seq<(u32, Seq<FieldValue>)>,
}

/// The view of a `Annotation` value.
pub closed spec fn annotation_view(m: Annotation) -> AnnotationView
{
    AnnotationView {
        path: views(m.path@),
        source_file: opt_view(m.source_file),
        begin: m.begin,
        end: m.end,
        unknown_fields: m.unknown_fields@,
    }
}

/// The views of a run of `Annotation` values.
pub closed spec fn annotation_seq_view(s: Seq<Annotation>) -> Seq<AnnotationView>
    decreases s,
{
    if s.len() == 0 {
        Seq::empty()
    } else {
        annotation_seq_view(s.subrange(0, s.len() - 1)).push(annotation_view(s[s.len() - 1]))
    }
}

/// The view of a `Annotation` with no field set.
pub open spec fn annotation_default() -> AnnotationView {
    AnnotationView {
        path: Seq::empty(),
        source_file: None,
        begin: None,
        end: None,
        unknown_fields: Seq::empty(),
    }
}

impl View for Annotation {
    type V = AnnotationView;

    open spec fn view(&self) -> AnnotationView {
        annotation_view(*self)
    }
}

impl Default for Annotation {
    /// A message with no field set.
    fn default() -> (r: Annotation)
        ensures
            r@ == annotation_default(),
    {
        let r = Annotation {
            path: Vec::new(),
            source_file: None,
            begin: None,
            end: None,
            unknown_fields: UnknownFieldSet::new(),
        };
        proof {
            assert(views(r.path@) =~= Seq::empty());
            assert(r@ =~= annotation_default());
        }
        r
    }
}

impl Annotation {
    /// Gets the values of the `path` field.
    pub fn path(&self) -> (r: &RepeatedField<i32>)
        ensures
            views(r@) == self@.path,
    {
        &self.path
    }

    /// Gets the values of the `path` field for changing them.
    pub fn path_mut(&mut self) -> (r: &mut RepeatedField<i32>)
        ensures
            views((*r)@) == old(self)@.path,
            final(self)@ == (AnnotationView { path: views((*final(r))@), ..old(self)@ }),
    {
        &mut self.path
    }

    /// Gets the `source_file` field, or its default, the empty string.
    pub fn source_file(&self) -> (r: &str)
        ensures
            r@ == text_or_empty(self@.source_file),
    {
        proof {
            reveal_strlit("");
        }
        match &self.source_file {
            Some(s) => s.as_str(),
            None => "",
        }
    }

    /// Gets the `source_file` field if it is set.
    pub fn source_file_option(&self) -> (r: Option<&String>)
        ensures
            opt_ref_view(r) == self@.source_file,
    {
        self.source_file.as_ref()
    }

    /// Gets the `source_file` field for changing it, setting it to its type's default first if it
    /// is not set.
    pub fn source_file_mut(&mut self) -> (r: &mut String)
        ensures
            (*r)@ == old(self)@.source_file.unwrap_or(Seq::<char>::empty()),
            final(self)@ == (AnnotationView { source_file: Some((*final(r))@), ..old(self)@ }),
    {
        self.source_file.get_or_insert(String::new())
    }

    /// Returns whether the `source_file` field is set.
    pub fn has_source_file(&self) -> (r: bool)
        ensures
            r == self@.source_file is Some,
    {
        self.source_file.is_some()
    }

    /// Sets the `source_file` field.
    pub fn set_source_file(&mut self, value: String)
        ensures
            final(self)@ == (AnnotationView { source_file: Some(value@), ..old(self)@ }),
    {
        self.source_file = Some(value);
    }

    /// Takes the `source_file` field out, leaving it unset.
    pub fn take_source_file(&mut self) -> (r: Option<String>)
        ensures
            opt_view(r) == old(self)@.source_file,
            final(self)@ == (AnnotationView { source_file: None, ..old(self)@ }),
    {
        self.source_file.take()
    }

    /// Clears the `source_file` field, leaving it unset.
    pub fn clear_source_file(&mut self)
        ensures
            final(self)@ == (AnnotationView { source_file: None, ..old(self)@ }),
    {
        self.source_file = None;
    }

    /// Gets the `begin` field, or its default, `0`.
    pub fn begin(&self) -> (r: i32)
        ensures
            r == self@.begin.unwrap_or(0i32),
    {
        match self.begin {
            Some(v) => v,
            None => 0i32,
        }
    }

    /// Gets the `begin` field if it is set.
    pub fn begin_option(&self) -> (r: Option<&i32>)
        ensures
            opt_ref_view(r) == self@.begin,
    {
        self.begin.as_ref()
    }

    /// Gets the `begin` field for changing it, setting it to its type's default first if it
    /// is not set.
    pub fn begin_mut(&mut self) -> (r: &mut i32)
        ensures
            (*r)@ == old(self)@.begin.unwrap_or(0i32),
            final(self)@ == (AnnotationView { begin: Some((*final(r))@), ..old(self)@ }),
    {
        self.begin.get_or_insert(0i32)
    }

    /// Returns whether the `begin` field is set.
    pub fn has_begin(&self) -> (r: bool)
        ensures
            r == self@.begin is Some,
    {
        self.begin.is_some()
    }

    /// Sets the `begin` field.
    pub fn set_begin(&mut self, value: i32)
        ensures
            final(self)@ == (AnnotationView { begin: Some(value@), ..old(self)@ }),
    {
        self.begin = Some(value);
    }

    /// Takes the `begin` field out, leaving it unset.
    pub fn take_begin(&mut self) -> (r: Option<i32>)
        ensures
            opt_view(r) == old(self)@.begin,
            final(self)@ == (AnnotationView { begin: None, ..old(self)@ }),
    {
        self.begin.take()
    }

    /// Clears the `begin` field, leaving it unset.
    pub fn clear_begin(&mut self)
        ensures
            final(self)@ == (AnnotationView { begin: None, ..old(self)@ }),
    {
        self.begin = None;
    }

    /// Gets the `end` field, or its default, `0`.
    pub fn end(&self) -> (r: i32)
        ensures
            r == self@.end.unwrap_or(0i32),
    {
        match self.end {
            Some(v) => v,
            None => 0i32,
        }
    }

    /// Gets the `end` field if it is set.
    pub fn end_option(&self) -> (r: Option<&i32>)
        ensures
            opt_ref_view(r) == self@.end,
    {
        self.end.as_ref()
    }

    /// Gets the `end` field for changing it, setting it to its type's default first if it
    /// is not set.
    pub fn end_mut(&mut self) -> (r: &mut i32)
        ensures
            (*r)@ == old(self)@.end.unwrap_or(0i32),
            final(self)@ == (AnnotationView { end: Some((*final(r))@), ..old(self)@ }),
    {
        self.end.get_or_insert(0i32)
    }

    /// Returns whether the `end` field is set.
    pub fn has_end(&self) -> (r: bool)
        ensures
            r == self@.end is Some,
    {
        self.end.is_some()
    }

    /// Sets the `end` field.
    pub fn set_end(&mut self, value: i32)
        ensures
            final(self)@ == (AnnotationView { end: Some(value@), ..old(self)@ }),
    {
        self.end = Some(value);
    }

    /// Takes the `end` field out, leaving it unset.
    pub fn take_end(&mut self) -> (r: Option<i32>)
        ensures
            opt_view(r) == old(self)@.end,
            final(self)@ == (AnnotationView { end: None, ..old(self)@ }),
    {
        self.end.take()
    }

    /// Clears the `end` field, leaving it unset.
    pub fn clear_end(&mut self)
        ensures
            final(self)@ == (AnnotationView { end: None, ..old(self)@ }),
    {
        self.end = None;
    }
}

/// The parts a `Annotation` is written as: its fields that are set, in field number order, then its
/// unknown fields.
#[verifier::opaque]
pub open spec fn annotation_parts(v: AnnotationView) -> Seq<(bool, Seq<u8>)>
{
    packed_parts::<raw::Int32>(1u32, v.path) + (opt_field_parts::<raw::String>(2u32, v.source_file) + (opt_field_parts::<raw::Int32>(3u32, v.begin) + (opt_field_parts::<raw::Int32>(4u32, v.end) + (set_parts(v.unknown_fields)))))
}

/// The parts the `Annotation` values of a repeated field with field number `num` are written as:
/// for each, its tag, its length and its parts.
pub open spec fn annotation_seq_parts(num: u32, ys: Seq<AnnotationView>) -> Seq<(bool, Seq<u8>)>
    decreases ys,
{
    if ys.len() == 0 {
        Seq::empty()
    } else {
        annotation_seq_parts(num, ys.subrange(0, ys.len() - 1)) + entry_parts(num, annotation_parts(ys[ys.len() - 1]))
    }
}

/// What reading the field with tag value `t` from the front of `rest` into `v` gives: the
/// number of bytes read and the message after, or the error.
pub open spec fn annotation_field_read(v: AnnotationView, t: u32, rest: Seq<u8>, depth: nat, limit: nat, skip: bool, eg: Option<Tag>) -> ReadResult<(int, AnnotationView)>
{
    if t == 8u32 {
        match <RepeatedField<i32> as RepeatedValue<raw::Int32>>::entries_read(rest) { Ok((m, es)) => Ok((m, AnnotationView { path: v.path + es, ..v })), Err(e) => Err(e) }
    } else if t == 10u32 {
        match <RepeatedField<i32> as RepeatedValue<Packed<raw::Int32>>>::entries_read(rest) { Ok((m, es)) => Ok((m, AnnotationView { path: v.path + es, ..v })), Err(e) => Err(e) }
    } else if t == 18u32 {
        match <raw::String as Value>::decoding(rest) { Ok((m, x)) => Ok((m, AnnotationView { source_file: Some(x), ..v })), Err(e) => Err(e) }
    } else if t == 24u32 {
        match <raw::Int32 as Value>::decoding(rest) { Ok((m, x)) => Ok((m, AnnotationView { begin: Some(x), ..v })), Err(e) => Err(e) }
    } else if t == 32u32 {
        match <raw::Int32 as Value>::decoding(rest) { Ok((m, x)) => Ok((m, AnnotationView { end: Some(x), ..v })), Err(e) => Err(e) }
    } else {
        match unknown_field_read(v.unknown_fields, t, rest, depth, limit, skip, eg) {
            Ok((m, u)) => Ok((m, AnnotationView { unknown_fields: u, ..v })),
            Err(e) => Err(e),
        }
    }
}

/// What reading all of `s` into `v` as `Annotation` fields gives: the message after, or the error.
/// `depth` and `limit` are the reader's depth and recursion limit, `skip` whether it skips
/// unknown fields, and `eg` the end tag of the group it is in.
pub open spec fn annotation_merged(v: AnnotationView, s: Seq<u8>, depth: nat, limit: nat, skip: bool, eg: Option<Tag>) -> ReadResult<AnnotationView>
    decreases s.len(),
{
    if s.len() == 0 {
        Ok(v)
    } else {
        match varint_read(s) {
            Err(e) => Err(e),
            Ok((n, w)) => if n < 1 || n > s.len() {
                Err(eof())
            } else {
                match annotation_field_read(v, w as u32, s.skip(n), depth, limit, skip, eg) {
                    Err(e) => Err(e),
                    Ok((m, v2)) => if m < 0 || n + m > s.len() {
                        Err(eof())
                    } else {
                        annotation_merged(v2, s.skip(n + m), depth, limit, skip, eg)
                    },
                }
            },
        }
    }
}

/// The views of a run of `Annotation` values, value by value.
pub proof fn lemma_annotation_seq_view(s: Seq<Annotation>)
    ensures
        annotation_seq_view(s).len() == s.len(),
        forall|i: int| 0 <= i < s.len() ==> #[trigger] annotation_seq_view(s)[i] == annotation_view(s[i]),
    decreases s.len(),
{
    if s.len() > 0 {
        lemma_annotation_seq_view(s.subrange(0, s.len() - 1));
        assert forall|i: int| 0 <= i < s.len() implies #[trigger] annotation_seq_view(s)[i] == annotation_view(s[i]) by {
            if i < s.len() - 1 {
                assert(s.subrange(0, s.len() - 1)[i] == s[i]);
            }
        }
    }
}

/// The parts of two runs of `Annotation` values are those of the first, then the second.
proof fn lemma_annotation_seq_parts_append(num: u32, a: Seq<AnnotationView>, b: Seq<AnnotationView>)
    ensures
        annotation_seq_parts(num, a + b) == annotation_seq_parts(num, a) + annotation_seq_parts(num, b),
    decreases b.len(),
{
    if b.len() == 0 {
        assert(a + b =~= a);
        assert(annotation_seq_parts(num, a) + annotation_seq_parts(num, b) =~= annotation_seq_parts(num, a));
    } else {
        let ab = a + b;
        assert(ab.subrange(0, ab.len() - 1) =~= a + b.subrange(0, b.len() - 1));
        assert(ab[ab.len() - 1] == b[b.len() - 1]);
        lemma_annotation_seq_parts_append(num, a, b.subrange(0, b.len() - 1));
        assert(annotation_seq_parts(num, a + b) =~= annotation_seq_parts(num, a) + annotation_seq_parts(num, b));
    }
}

/// The parts of the first `i + 1` values of a run are those of the first `i`, then the entry
/// of value `i`; and those of the whole run are those of the first `i + 1`, then the rest.
proof fn lemma_annotation_seq_parts_step(num: u32, ys: Seq<AnnotationView>, i: int)
    requires
        0 <= i < ys.len(),
    ensures
        annotation_seq_parts(num, ys.take(i + 1)) == annotation_seq_parts(num, ys.take(i)) + entry_parts(num, annotation_parts(ys[i])),
        annotation_seq_parts(num, ys) == annotation_seq_parts(num, ys.take(i + 1)) + annotation_seq_parts(num, ys.skip(i + 1)),
{
    assert(ys.take(i + 1).subrange(0, i) =~= ys.take(i));
    assert(ys.take(i + 1)[i] == ys[i]);
    lemma_annotation_seq_parts_append(num, ys.take(i + 1), ys.skip(i + 1));
    assert(ys.take(i + 1) + ys.skip(i + 1) =~= ys);
}

/// The parts of `Annotation` values are those of the first value's entry, then those of the others.
proof fn lemma_annotation_seq_parts_front(num: u32, ys: Seq<AnnotationView>)
    requires
        ys.len() > 0,
    ensures
        annotation_seq_parts(num, ys) == entry_parts(num, annotation_parts(ys[0])) + annotation_seq_parts(num, ys.drop_first()),
{
    let one = seq![ys[0]];
    lemma_annotation_seq_parts_append(num, one, ys.drop_first());
    assert(one + ys.drop_first() =~= ys);
    assert(one.subrange(0, 0) =~= Seq::<AnnotationView>::empty());
    assert(annotation_seq_parts(num, Seq::<AnnotationView>::empty()) =~= Seq::<(bool, Seq<u8>)>::empty());
    assert(one[0] == ys[0]);
    assert(annotation_seq_parts(num, one) =~= entry_parts(num, annotation_parts(ys[0])));
}

/// Adds the size of the `Annotation` values of a repeated field with field number `num`.
fn annotation_values_size(vs: &Vec<Annotation>, builder: LengthBuilder, num: FieldNumber) -> (r: Option<LengthBuilder>)
    ensures
        size_added(builder@ as int, parts_encodable(annotation_seq_parts(num@, annotation_seq_view(vs@))), parts_bytes(annotation_seq_parts(num@, annotation_seq_view(vs@))).len() as int, r),
{
    let ghost ys = annotation_seq_view(vs@);
    proof {
        lemma_annotation_seq_view(vs@);
        assert(ys.take(0) =~= Seq::<AnnotationView>::empty());
    }
    let mut b = builder;
    let mut i: usize = 0;
    while i < vs.len()
        invariant
            ys == annotation_seq_view(vs@),
            ys.len() == vs@.len(),
            forall|k: int| 0 <= k < vs@.len() ==> #[trigger] ys[k] == annotation_view(vs@[k]),
            i <= vs@.len(),
            size_added(builder@ as int, parts_encodable(annotation_seq_parts(num@, ys.take(i as int))), parts_bytes(annotation_seq_parts(num@, ys.take(i as int))).len() as int, Some(b)),
        decreases vs@.len() - i,
    {
        let ghost y = ys[i as int];
        let ghost done = annotation_seq_parts(num@, ys.take(i as int));
        let ghost cur = entry_parts(num@, annotation_parts(y));
        let ghost rest = annotation_seq_parts(num@, ys.skip(i + 1));
        proof {
            lemma_annotation_seq_parts_step(num@, ys, i as int);
        }
        let len = vs[i].calculate_size();
        let r = add_entry_size(b, num, len, Ghost(annotation_parts(y)));
        proof {
            lemma_size_chain(builder@ as int, done, cur, Some(b), r);
        }
        b = match r {
            Some(b1) => b1,
            None => {
                proof {
                    lemma_size_prefix(builder@ as int, done + cur, rest);
                }
                return None;
            },
        };
        i = i + 1;
    }
    proof {
        assert(ys.take(i as int) =~= ys);
    }
    Some(b)
}

/// Writes the `Annotation` values of a repeated field with field number `num`: for each, its tag,
/// its length and its fields.
fn write_annotation_values(vs: &Vec<Annotation>, output: &mut CodedWriter, num: FieldNumber) -> (r: WriteResult)
    ensures
        (final(output).written(), r) == parts_written(old(output).written(), old(output).capacity(), annotation_seq_parts(num@, annotation_seq_view(vs@))),
        final(output).capacity() == old(output).capacity(),
        (*final(final(output).target()))@ == (*final(old(output).target()))@,
{
    let ghost ys = annotation_seq_view(vs@);
    let ghost start = output.written();
    let ghost cap = output.capacity();
    proof {
        lemma_annotation_seq_view(vs@);
        assert(ys.take(0) =~= Seq::<AnnotationView>::empty());
    }
    let mut i: usize = 0;
    while i < vs.len()
        invariant
            ys == annotation_seq_view(vs@),
            ys.len() == vs@.len(),
            forall|k: int| 0 <= k < vs@.len() ==> #[trigger] ys[k] == annotation_view(vs@[k]),
            i <= vs@.len(),
            start == old(output).written(),
            cap == old(output).capacity(),
            output.capacity() == cap,
            (*final(output.target()))@ == (*final(old(output).target()))@,
            parts_written(start, cap, annotation_seq_parts(num@, ys.take(i as int))).0 == output.written(),
            parts_written(start, cap, annotation_seq_parts(num@, ys.take(i as int))).1 is Ok,
        decreases vs@.len() - i,
    {
        let ghost y = ys[i as int];
        let ghost done = annotation_seq_parts(num@, ys.take(i as int));
        let ghost head = entry_head(num@, annotation_parts(y));
        let ghost cur = head + annotation_parts(y);
        let ghost rest = annotation_seq_parts(num@, ys.skip(i + 1));
        let ghost w0 = output.written();
        proof {
            lemma_annotation_seq_parts_step(num@, ys, i as int);
            lemma_parts_written_append(start, cap, done, cur);
            lemma_parts_written_append(start, cap, done + cur, rest);
            lemma_parts_written_append(w0, cap, head, annotation_parts(y));
            reveal_with_fuel(parts_written, 3);
            assert(head.drop_first().drop_first() =~= Seq::<(bool, Seq<u8>)>::empty());
        }
        match output.write_tag(Tag::new(num, WireType::LengthDelimited)) {
            Ok(()) => {},
            Err(e) => return Err(e),
        }
        let len = match vs[i].calculate_size() {
            Some(len) => len,
            None => return Err(WriteError::ValueTooLarge),
        };
        match output.write_length(len) {
            Ok(()) => {},
            Err(e) => return Err(e),
        }
        match vs[i].write_to(output) {
            Ok(()) => {},
            Err(e) => return Err(e),
        }
        i = i + 1;
    }
    proof {
        assert(ys.take(i as int) =~= ys);
        lemma_ok_unit(parts_written(start, cap, annotation_seq_parts(num@, ys)).1);
    }
    Ok(())
}

/// Reads a `Annotation` from the reader as a length delimited value, merging it into `this`, one
/// level deeper.
fn merge_annotation_delimited(this: &mut Annotation, input: &mut CodedReader) -> (r: ReadResult<()>)
    ensures
        match length_delimited_read(old(input).available()) {
            Err(e) => r == Err::<(), ReadError>(e) && same_config(*old(input), *final(input)),
            Ok((m, b)) => if old(input).depth() >= old(input).recursion_limit() {
                r == Err::<(), ReadError>(ReadError::RecursionLimitExceeded) && same_config(*old(input), *final(input))
            } else {
                match annotation_merged(old(this)@, b, old(input).depth() + 1, old(input).recursion_limit(), skips(*old(input)), old(input).end_group_view()) {
                    Ok(y) => r is Ok && final(this)@ == y && final(input).position() == old(input).position() + m
                        && same_state(*old(input), *final(input)),
                    Err(e) => r == Err::<(), ReadError>(e) && same_config(*old(input), *final(input)),
                }
            },
        },
{
    let rem0 = input.remaining();
    let ghost s = input.available();
    let ghost start = *input;
    let length = match input.read_length() {
        Ok(l) => l,
        Err(e) => return Err(e),
    };
    let rem1 = input.remaining();
    let ghost n0 = input.position() - start.position();
    proof {
        lemma_varint_read_len(s);
        assert(input.available() =~= s.skip(n0));
    }
    let previous = match input.push_length(length) {
        Ok(p) => p,
        Err(e) => return Err(e),
    };
    let rem2 = input.remaining();
    let ghost b = s.subrange(n0, n0 + length@);
    proof {
        assert(input.available() =~= b);
        assert(length_delimited_read(s) == Ok::<(int, Seq<u8>), ReadError>((n0 + length@, b)));
    }
    let ghost pushed = *input;
    match input.increment_recursion_count() {
        Ok(()) => {},
        Err(e) => {
            input.pop_length(previous);
            return Err(e);
        },
    }
    let r = this.merge_from(input);
    let rem3 = input.remaining();
    input.decrement_recursion_count();
    input.pop_length(previous);
    r
}

impl Annotation {
    /// Gets the unknown fields of the message.
    pub fn unknown_fields(&self) -> (r: &UnknownFieldSet)
        ensures
            r@ == self@.unknown_fields,
    {
        &self.unknown_fields
    }

    /// Gets the unknown fields of the message for changing them.
    pub fn unknown_fields_mut(&mut self) -> (r: &mut UnknownFieldSet)
        ensures
            (*r)@ == old(self)@.unknown_fields,
            final(self)@ == (AnnotationView { unknown_fields: (*final(r))@, ..old(self)@ }),
    {
        &mut self.unknown_fields
    }

    /// Returns whether the message is initialized: whether all its required fields are set.
    pub fn is_initialized(&self) -> (r: bool)
        ensures
            r,
    {
        if !crate::is_initialized(&self.path) {
            return false;
        }
        true
    }

    /// Calculates the size of the message as it is written: `None` if a part cannot be
    /// written or the size does not fit in a length.
    #[verifier::spinoff_prover]
    pub fn calculate_size(&self) -> (r: Option<Length>)
        ensures
            opt_length(r) == parts_size(annotation_parts(self@)),
    {
        let ghost v = self@;
        let ghost all = annotation_parts(v);
        let b0 = LengthBuilder::new();
        let ghost d0 = Seq::<(bool, Seq<u8>)>::empty();
        proof {
            reveal(annotation_parts);
            assert(all =~= d0 + all);
        }
        let ghost p1 = packed_parts::<raw::Int32>(1u32, v.path);
        let ghost rest1 = opt_field_parts::<raw::String>(2u32, v.source_file) + (opt_field_parts::<raw::Int32>(3u32, v.begin) + (opt_field_parts::<raw::Int32>(4u32, v.end) + (set_parts(v.unknown_fields))));
        proof {
            <RepeatedField<i32> as RepeatedValue<Packed<raw::Int32>>>::lemma_countable(&self.path, 1u32);
            assert(all == d0 + (p1 + rest1));
            assert(d0 + (p1 + rest1) =~= d0 + p1 + rest1);
        }
        let r1 = <RepeatedField<i32> as RepeatedValue<Packed<raw::Int32>>>::calculate_size(&self.path, b0, FieldNumber::new_unchecked(1));
        proof {
            lemma_size_chain(0, d0, p1, Some(b0), r1);
            if r1 is None {
                lemma_size_chain(0, d0 + p1, rest1, r1, r1);
            }
        }
        let b1 = match r1 {
            Some(b) => b,
            None => return None,
        };
        let ghost d1 = d0 + p1;
        let ghost p2 = opt_field_parts::<raw::String>(2u32, v.source_file);
        let ghost rest2 = opt_field_parts::<raw::Int32>(3u32, v.begin) + (opt_field_parts::<raw::Int32>(4u32, v.end) + (set_parts(v.unknown_fields)));
        proof {
            assert(self@.source_file == opt_inner_view::<raw::String>(self.source_file));
            assert(all == d1 + (p2 + rest2));
            assert(d1 + (p2 + rest2) =~= d1 + p2 + rest2);
        }
        let r2 = add_opt_field::<raw::String>(b1, FieldNumber::new_unchecked(2), &self.source_file);
        proof {
            lemma_size_chain(0, d1, p2, Some(b1), r2);
            if r2 is None {
                lemma_size_chain(0, d1 + p2, rest2, r2, r2);
            }
        }
        let b2 = match r2 {
            Some(b) => b,
            None => return None,
        };
        let ghost d2 = d1 + p2;
        let ghost p3 = opt_field_parts::<raw::Int32>(3u32, v.begin);
        let ghost rest3 = opt_field_parts::<raw::Int32>(4u32, v.end) + (set_parts(v.unknown_fields));
        proof {
            assert(self@.begin == opt_inner_view::<raw::Int32>(self.begin));
            assert(all == d2 + (p3 + rest3));
            assert(d2 + (p3 + rest3) =~= d2 + p3 + rest3);
        }
        let r3 = add_opt_field::<raw::Int32>(b2, FieldNumber::new_unchecked(3), &self.begin);
        proof {
            lemma_size_chain(0, d2, p3, Some(b2), r3);
            if r3 is None {
                lemma_size_chain(0, d2 + p3, rest3, r3, r3);
            }
        }
        let b3 = match r3 {
            Some(b) => b,
            None => return None,
        };
        let ghost d3 = d2 + p3;
        let ghost p4 = opt_field_parts::<raw::Int32>(4u32, v.end);
        let ghost rest4 = set_parts(v.unknown_fields);
        proof {
            assert(self@.end == opt_inner_view::<raw::Int32>(self.end));
            assert(all == d3 + (p4 + rest4));
            assert(d3 + (p4 + rest4) =~= d3 + p4 + rest4);
        }
        let r4 = add_opt_field::<raw::Int32>(b3, FieldNumber::new_unchecked(4), &self.end);
        proof {
            lemma_size_chain(0, d3, p4, Some(b3), r4);
            if r4 is None {
                lemma_size_chain(0, d3 + p4, rest4, r4, r4);
            }
        }
        let b4 = match r4 {
            Some(b) => b,
            None => return None,
        };
        let ghost d4 = d3 + p4;
        let ghost p5 = set_parts(v.unknown_fields);
        let ghost rest5 = Seq::<(bool, Seq<u8>)>::empty();
        proof {
            assert(all == d4 + p5);
            assert(p5 + rest5 =~= p5);
            assert(d4 + (p5 + rest5) =~= d4 + p5 + rest5);
        }
        let r5 = self.unknown_fields.calculate_size(b4);
        proof {
            lemma_size_chain(0, d4, p5, Some(b4), r5);
            if r5 is None {
                lemma_size_chain(0, d4 + p5, rest5, r5, r5);
            }
        }
        let b5 = match r5 {
            Some(b) => b,
            None => return None,
        };
        let ghost d5 = d4 + p5;
        Some(b5.build())
    }

    /// Writes the message to the writer: its fields that are set, in field number order, then
    /// its unknown fields.
    #[verifier::spinoff_prover]
    pub fn write_to(&self, output: &mut CodedWriter) -> (r: WriteResult)
        ensures
            (final(output).written(), r) == parts_written(old(output).written(), old(output).capacity(), annotation_parts(self@)),
            final(output).capacity() == old(output).capacity(),
            (*final(final(output).target()))@ == (*final(old(output).target()))@,
    {
        let ghost v = self@;
        let ghost all = annotation_parts(v);
        let ghost start = output.written();
        let ghost cap = output.capacity();
        let ghost d0 = Seq::<(bool, Seq<u8>)>::empty();
        proof {
            reveal(annotation_parts);
            assert(all =~= d0 + all);
        }
        let ghost p1 = packed_parts::<raw::Int32>(1u32, v.path);
        let ghost rest1 = opt_field_parts::<raw::String>(2u32, v.source_file) + (opt_field_parts::<raw::Int32>(3u32, v.begin) + (opt_field_parts::<raw::Int32>(4u32, v.end) + (set_parts(v.unknown_fields))));
        proof {
            assert(all == d0 + (p1 + rest1));
            assert(d0 + (p1 + rest1) =~= d0 + p1 + rest1);
            lemma_parts_written_append(start, cap, d0, p1);
            lemma_parts_written_append(start, cap, d0 + p1, rest1);
        }
        match <RepeatedField<i32> as RepeatedValue<Packed<raw::Int32>>>::write_to(&self.path, output, FieldNumber::new_unchecked(1)) {
            Ok(()) => {},
            Err(e) => return Err(e),
        }
        let ghost d1 = d0 + p1;
        let ghost p2 = opt_field_parts::<raw::String>(2u32, v.source_file);
        let ghost rest2 = opt_field_parts::<raw::Int32>(3u32, v.begin) + (opt_field_parts::<raw::Int32>(4u32, v.end) + (set_parts(v.unknown_fields)));
        proof {
            assert(self@.source_file == opt_inner_view::<raw::String>(self.source_file));
            assert(all == d1 + (p2 + rest2));
            assert(d1 + (p2 + rest2) =~= d1 + p2 + rest2);
            lemma_parts_written_append(start, cap, d1, p2);
            lemma_parts_written_append(start, cap, d1 + p2, rest2);
        }
        match write_opt_field::<raw::String>(output, FieldNumber::new_unchecked(2), &self.source_file) {
            Ok(()) => {},
            Err(e) => return Err(e),
        }
        let ghost d2 = d1 + p2;
        let ghost p3 = opt_field_parts::<raw::Int32>(3u32, v.begin);
        let ghost rest3 = opt_field_parts::<raw::Int32>(4u32, v.end) + (set_parts(v.unknown_fields));
        proof {
            assert(self@.begin == opt_inner_view::<raw::Int32>(self.begin));
            assert(all == d2 + (p3 + rest3));
            assert(d2 + (p3 + rest3) =~= d2 + p3 + rest3);
            lemma_parts_written_append(start, cap, d2, p3);
            lemma_parts_written_append(start, cap, d2 + p3, rest3);
        }
        match write_opt_field::<raw::Int32>(output, FieldNumber::new_unchecked(3), &self.begin) {
            Ok(()) => {},
            Err(e) => return Err(e),
        }
        let ghost d3 = d2 + p3;
        let ghost p4 = opt_field_parts::<raw::Int32>(4u32, v.end);
        let ghost rest4 = set_parts(v.unknown_fields);
        proof {
            assert(self@.end == opt_inner_view::<raw::Int32>(self.end));
            assert(all == d3 + (p4 + rest4));
            assert(d3 + (p4 + rest4) =~= d3 + p4 + rest4);
            lemma_parts_written_append(start, cap, d3, p4);
            lemma_parts_written_append(start, cap, d3 + p4, rest4);
        }
        match write_opt_field::<raw::Int32>(output, FieldNumber::new_unchecked(4), &self.end) {
            Ok(()) => {},
            Err(e) => return Err(e),
        }
        let ghost d4 = d3 + p4;
        let ghost p5 = set_parts(v.unknown_fields);
        let ghost rest5 = Seq::<(bool, Seq<u8>)>::empty();
        proof {
            assert(all == d4 + p5);
            assert(p5 + rest5 =~= p5);
            assert(d4 + (p5 + rest5) =~= d4 + p5 + rest5);
            lemma_parts_written_append(start, cap, d4, p5);
            lemma_parts_written_append(start, cap, d4 + p5, rest5);
        }
        match self.unknown_fields.write_to(output) {
            Ok(()) => {},
            Err(e) => return Err(e),
        }
        let ghost d5 = d4 + p5;
        proof {
            assert(all =~= d5 + Seq::<(bool, Seq<u8>)>::empty());
            assert(all == d5);
            lemma_ok_unit(parts_written(start, cap, all).1);
        }
        Ok(())
    }

    /// Reads the value of the field whose tag value `t` was just read into the message.
    #[verifier::spinoff_prover]
    fn merge_field(&mut self, t: u32, input: &mut CodedReader) -> (r: ReadResult<()>)
        ensures
            match annotation_field_read(old(self)@, t, old(input).available(), old(input).depth(), old(input).recursion_limit(), skips(*old(input)), old(input).end_group_view()) {
                Ok((m, v2)) => r is Ok && final(self)@ == v2 && m >= 0 && final(input).position()
                    == old(input).position() + m && same_state(*old(input), *final(input)),
                Err(e) => r == Err::<(), ReadError>(e) && same_config(*old(input), *final(input)),
            },
    {
        let rem0 = input.remaining();
        let ghost rest = input.available();
        if t == 8u32 {
            proof {
                <raw::Int32 as Value>::lemma_decoding_len(rest);
            }
            input.set_last_tag(Some(Tag::new(FieldNumber::new_unchecked(1), WireType::Varint)));
            match <RepeatedField<i32> as RepeatedValue<raw::Int32>>::add_entries_from(&mut self.path, input) {
                Ok(()) => {},
                Err(e) => return Err(e),
            }
        } else if t == 10u32 {
            proof {
                lemma_length_delimited_read_len(rest);
            }
            input.set_last_tag(Some(Tag::new(FieldNumber::new_unchecked(1), WireType::LengthDelimited)));
            match <RepeatedField<i32> as RepeatedValue<Packed<raw::Int32>>>::add_entries_from(&mut self.path, input) {
                Ok(()) => {},
                Err(e) => return Err(e),
            }
        } else if t == 18u32 {
            proof {
                <raw::String as Value>::lemma_decoding_len(rest);
            }
            input.set_last_tag(Some(Tag::new(FieldNumber::new_unchecked(2), WireType::LengthDelimited)));
            match <raw::String as Value>::merge_from(self.source_file.get_or_insert(std::string::String::new()), input) {
                Ok(()) => {},
                Err(e) => return Err(e),
            }
        } else if t == 24u32 {
            proof {
                <raw::Int32 as Value>::lemma_decoding_len(rest);
            }
            input.set_last_tag(Some(Tag::new(FieldNumber::new_unchecked(3), WireType::Varint)));
            match <raw::Int32 as Value>::merge_from(self.begin.get_or_insert(0i32), input) {
                Ok(()) => {},
                Err(e) => return Err(e),
            }
        } else if t == 32u32 {
            proof {
                <raw::Int32 as Value>::lemma_decoding_len(rest);
            }
            input.set_last_tag(Some(Tag::new(FieldNumber::new_unchecked(4), WireType::Varint)));
            match <raw::Int32 as Value>::merge_from(self.end.get_or_insert(0i32), input) {
                Ok(()) => {},
                Err(e) => return Err(e),
            }
        } else {
            let tag = match Tag::try_from(t) {
                Ok(tag) => tag,
                Err(_) => return Err(ReadError::InvalidTag(t)),
            };
            input.set_last_tag(Some(tag));
            match self.unknown_fields.try_add_field_from(input) {
                Ok(TryRead::Consumed) => {},
                Ok(TryRead::Yielded) => match input.skip() {
                    Ok(()) => {},
                    Err(e) => return Err(e),
                },
                Err(e) => return Err(e),
            }
        }
        let rem1 = input.remaining();
        Ok(())
    }

    /// Merges the message with fields read from the reader, up to its limit. Scalar fields
    /// read replace those set, message fields are merged, repeated fields are added to,
    /// and unknown fields are stored or skipped as the reader says. On an error the message
    /// may hold some of the fields read before it.
    #[verifier::spinoff_prover]
    #[verifier::rlimit(50)]
    pub fn merge_from(&mut self, input: &mut CodedReader) -> (r: ReadResult<()>)
        ensures
            merge_outcome(annotation_merged(old(self)@, old(input).available(), old(input).depth(), old(input).recursion_limit(), skips(*old(input)), old(input).end_group_view()), final(self)@, *old(input), *final(input), r),
    {
        let rem0 = input.remaining();
        let ghost start = *input;
        let ghost total = annotation_merged(self@, input.available(), input.depth(), input.recursion_limit(), skips(*input), input.end_group_view());
        loop
            invariant
                start == *old(input),
                same_state(start, *input),
                0 <= start.position() <= input.position(),
                input.limit_end() <= input.input().len(),
                total == annotation_merged(old(self)@, start.available(), start.depth(), start.recursion_limit(), skips(start), start.end_group_view()),
                total == annotation_merged(self@, input.available(), start.depth(), start.recursion_limit(), skips(start), start.end_group_view()),
            decreases input.available().len(),
        {
            let ghost s = input.available();
            let ghost before = *input;
            let ghost v = self@;
            let t = match input.read_field() {
                Ok(Some(t)) => t,
                Ok(None) => return Ok(()),
                Err(e) => return Err(e),
            };
            let rem1 = input.remaining();
            let ghost n = input.position() - before.position();
            proof {
                lemma_varint_read_len(s);
                assert(input.available() =~= s.skip(n));
            }
            let ghost mid = *input;
            match self.merge_field(t, input) {
                Ok(()) => {},
                Err(e) => return Err(e),
            }
            let rem2 = input.remaining();
            proof {
                let m = input.position() - mid.position();
                assert(input.available() =~= s.skip(n + m));
            }
        }
    }
}

impl crate::Message for Annotation {
    open spec fn merged(v: AnnotationView, s: Seq<u8>, depth: nat, limit: nat, skip: bool, eg: Option<Tag>) -> ReadResult<AnnotationView> {
        annotation_merged(v, s, depth, limit, skip, eg)
    }

    open spec fn parts(v: AnnotationView) -> Seq<(bool, Seq<u8>)> {
        annotation_parts(v)
    }

    open spec fn initialized(v: AnnotationView) -> bool {
        true
    }

    open spec fn unknown_fields_of(v: AnnotationView) -> Seq<(u32, Seq<FieldValue>)> {
        v.unknown_fields
    }

    open spec fn with_unknown_fields(v: AnnotationView, u: Seq<(u32, Seq<FieldValue>)>) -> AnnotationView {
        AnnotationView { unknown_fields: u, ..v }
    }

    fn merge_from(&mut self, input: &mut CodedReader) -> (r: ReadResult<()>) {
        Annotation::merge_from(self, input)
    }

    fn calculate_size(&self) -> (r: Option<Length>) {
        Annotation::calculate_size(self)
    }

    fn write_to(&self, output: &mut CodedWriter) -> (r: WriteResult) {
        Annotation::write_to(self, output)
    }

    fn is_initialized(&self) -> (r: bool) {
        Annotation::is_initialized(self)
    }

    fn unknown_fields(&self) -> (r: &UnknownFieldSet) {
        Annotation::unknown_fields(self)
    }

    fn unknown_fields_mut(&mut self) -> (r: &mut UnknownFieldSet) {
        Annotation::unknown_fields_mut(self)
    }
}

impl DebugMessage for Annotation {
    open spec fn spec_full_name() -> Seq<char> {
        "google.protobuf.GeneratedCodeInfo.Annotation"@
    }

    open spec fn spec_name() -> Seq<char> {
        "Annotation"@
    }

    fn full_name() -> (r: &'static str) {
        "google.protobuf.GeneratedCodeInfo.Annotation"
    }

    fn name() -> (r: &'static str) {
        "Annotation"
    }
}

/// Whether `t` is the tag of a field a `Annotation` reads.
pub open spec fn annotation_known_tag(t: u32) -> bool {
    t == 8u32 || t == 10u32 || t == 18u32 || t == 24u32 || t == 32u32
}

/// Whether a `Annotation` is read back as it is written, at nesting depth `depth` of a reader with
/// recursion limit `limit`: its messages are read back as written one level deeper, within
/// the limit; and its unknown fields are read back as written, none with the tag of one of
/// its fields.
pub open spec fn annotation_roundtrips(v: AnnotationView, depth: nat, limit: nat) -> bool
{
    &&& set_readable(v.unknown_fields)
    &&& forall|k: int| 0 <= k < set_pairs(v.unknown_fields).len() ==> !annotation_known_tag(tag_value(
        #[trigger] set_pairs(v.unknown_fields)[k].0,
        field_value_wire_type(set_pairs(v.unknown_fields)[k].1),
    ))
}

/// Reading a `Annotation` field whose tag is read from the front of `s` and whose value is read after
/// it continues with the rest of `s`.
proof fn lemma_annotation_step(v: AnnotationView, s: Seq<u8>, k: int, t: u32, m: int, v2: AnnotationView, depth: nat, limit: nat)
    requires
        varint_read(s) == Ok::<(int, u64), ReadError>((k, t as u64)),
        1 <= k <= s.len(),
        annotation_field_read(v, t, s.skip(k), depth, limit, false, None) == Ok::<(int, AnnotationView), ReadError>((m, v2)),
        0 <= m,
        k + m <= s.len(),
    ensures
        annotation_merged(v, s, depth, limit, false, None) == annotation_merged(v2, s.skip(k + m), depth, limit, false, None),
{
    assert((t as u64) as u32 == t);
}

/// Reading the values written packed as field `path` of a `Annotation` adds the values.
proof fn lemma_annotation_read_path(v: AnnotationView, vs: Seq<i32>, rest: Seq<u8>, depth: nat, limit: nat)
    requires
        vs.len() > 0 ==> packed_fits::<raw::Int32>(vs),
    ensures
        annotation_merged(v, parts_bytes(packed_parts::<raw::Int32>(1u32, vs)) + rest, depth, limit, false, None) == annotation_merged(
            AnnotationView { path: v.path + vs, ..v },
            rest,
            depth, limit, false, None,
        ),
{
    if vs.len() == 0 {
        assert(parts_bytes(packed_parts::<raw::Int32>(1u32, vs)) + rest =~= rest);
        assert(v.path + vs =~= v.path);
    } else {
        lemma_packed_bytes_read::<raw::Int32>(1u32, vs, rest);
        lemma_tag_value(1u32, WireType::LengthDelimited);
        let s = parts_bytes(packed_parts::<raw::Int32>(1u32, vs)) + rest;
        let hl = parts_bytes(packed_parts::<raw::Int32>(1u32, vs)).len() as int;
        let k = varint_len(10u64) as int;
        let v2 = AnnotationView { path: v.path + vs, ..v };
        lemma_annotation_step(v, s, k, 10u32, hl - k, v2, depth, limit);
    }
}

/// Reading the field `source_file` of a `Annotation` written from `o` sets it to `o`, whatever it held; nothing
/// is written, and nothing changes, for `None`.
proof fn lemma_annotation_read_source_file(d: AnnotationView, o: Option<Seq<char>>, rest: Seq<u8>, depth: nat, limit: nat)
    requires
        parts_encodable(opt_field_parts::<raw::String>(2u32, o)),
    ensures
        annotation_merged(d, parts_bytes(opt_field_parts::<raw::String>(2u32, o)) + rest, depth, limit, false, None) == annotation_merged(if o is Some { AnnotationView { source_file: o, ..d } } else { d }, rest, depth, limit, false, None),
{
    match o {
        None => {
            assert(parts_bytes(opt_field_parts::<raw::String>(2u32, o)) + rest =~= rest);
        },
        Some(x) => {
            let p = field_parts::<raw::String>(2u32, x);
            assert(p[1].0);
            let s = parts_bytes(p) + rest;
            lemma_field_bytes_read::<raw::String>(2u32, x, rest);
            lemma_tag_value(2u32, WireType::LengthDelimited);
            let hl = parts_bytes(p).len() as int;
            let k = varint_len(18u64) as int;
            let v2 = AnnotationView { source_file: Some(x), ..d };
            lemma_annotation_step(d, s, k, 18u32, hl - k, v2, depth, limit);
        },
    }
}

/// Reading the field `begin` of a `Annotation` written from `o` sets it to `o`, whatever it held; nothing
/// is written, and nothing changes, for `None`.
proof fn lemma_annotation_read_begin(d: AnnotationView, o: Option<i32>, rest: Seq<u8>, depth: nat, limit: nat)
    requires
        parts_encodable(opt_field_parts::<raw::Int32>(3u32, o)),
    ensures
        annotation_merged(d, parts_bytes(opt_field_parts::<raw::Int32>(3u32, o)) + rest, depth, limit, false, None) == annotation_merged(if o is Some { AnnotationView { begin: o, ..d } } else { d }, rest, depth, limit, false, None),
{
    match o {
        None => {
            assert(parts_bytes(opt_field_parts::<raw::Int32>(3u32, o)) + rest =~= rest);
        },
        Some(x) => {
            let p = field_parts::<raw::Int32>(3u32, x);
            assert(p[1].0);
            let s = parts_bytes(p) + rest;
            lemma_field_bytes_read::<raw::Int32>(3u32, x, rest);
            lemma_tag_value(3u32, WireType::Varint);
            let hl = parts_bytes(p).len() as int;
            let k = varint_len(24u64) as int;
            let v2 = AnnotationView { begin: Some(x), ..d };
            lemma_annotation_step(d, s, k, 24u32, hl - k, v2, depth, limit);
        },
    }
}

/// Reading the field `end` of a `Annotation` written from `o` sets it to `o`, whatever it held; nothing
/// is written, and nothing changes, for `None`.
proof fn lemma_annotation_read_end(d: AnnotationView, o: Option<i32>, rest: Seq<u8>, depth: nat, limit: nat)
    requires
        parts_encodable(opt_field_parts::<raw::Int32>(4u32, o)),
    ensures
        annotation_merged(d, parts_bytes(opt_field_parts::<raw::Int32>(4u32, o)) + rest, depth, limit, false, None) == annotation_merged(if o is Some { AnnotationView { end: o, ..d } } else { d }, rest, depth, limit, false, None),
{
    match o {
        None => {
            assert(parts_bytes(opt_field_parts::<raw::Int32>(4u32, o)) + rest =~= rest);
        },
        Some(x) => {
            let p = field_parts::<raw::Int32>(4u32, x);
            assert(p[1].0);
            let s = parts_bytes(p) + rest;
            lemma_field_bytes_read::<raw::Int32>(4u32, x, rest);
            lemma_tag_value(4u32, WireType::Varint);
            let hl = parts_bytes(p).len() as int;
            let k = varint_len(32u64) as int;
            let v2 = AnnotationView { end: Some(x), ..d };
            lemma_annotation_step(d, s, k, 32u32, hl - k, v2, depth, limit);
        },
    }
}

/// Reading unknown field values written one after the other into a `Annotation`, none with the tag
/// of one of its fields, adds them to its unknown fields.
proof fn lemma_annotation_read_unknown(v: AnnotationView, ps: Seq<(u32, FieldValue)>, rest: Seq<u8>, depth: nat, limit: nat)
    requires
        forall|k: int| 0 <= k < ps.len() ==> value_readable(#[trigger] ps[k].0, ps[k].1) && !annotation_known_tag(
            tag_value(ps[k].0, field_value_wire_type(ps[k].1)),
        ),
    ensures
        annotation_merged(v, parts_bytes(pairs_parts(ps)) + rest, depth, limit, false, None) == annotation_merged(
            AnnotationView { unknown_fields: push_pairs(v.unknown_fields, ps), ..v },
            rest,
            depth, limit, false, None,
        ),
    decreases ps.len(),
{
    if ps.len() == 0 {
        assert(parts_bytes(pairs_parts(ps)) + rest =~= rest);
    } else {
        let n = ps[0].0;
        let fv = ps[0].1;
        let tail = ps.drop_first();
        assert forall|k: int| 0 <= k < tail.len() implies value_readable(#[trigger] tail[k].0, tail[k].1) && !annotation_known_tag(
            tag_value(tail[k].0, field_value_wire_type(tail[k].1)),
        ) by {
            assert(tail[k] == ps[k + 1]);
        }
        assert(value_readable(ps[0].0, ps[0].1));
        lemma_parts_bytes_append(field_value_parts(n, fv), pairs_parts(tail));
        let after = parts_bytes(pairs_parts(tail)) + rest;
        let s = parts_bytes(pairs_parts(ps)) + rest;
        assert(s =~= parts_bytes(field_value_parts(n, fv)) + after);
        lemma_read_value_bytes(n, fv, after);
        let t = tag_value(n, field_value_wire_type(fv));
        let hl = parts_bytes(field_value_parts(n, fv)).len() as int;
        let k = varint_len(t as u64) as int;
        let v2 = AnnotationView { unknown_fields: view_push(v.unknown_fields, n, fv), ..v };
        lemma_annotation_step(v, s, k, t, hl - k, v2, depth, limit);
        lemma_annotation_read_unknown(v2, tail, rest, depth, limit);
    }
}

/// The writability of the parts of a `Annotation` is that of each field's parts.
proof fn lemma_annotation_parts_encodable(v: AnnotationView)
    ensures
        parts_encodable(annotation_parts(v)) == (parts_encodable(packed_parts::<raw::Int32>(1u32, v.path)) && parts_encodable(opt_field_parts::<raw::String>(2u32, v.source_file)) && parts_encodable(opt_field_parts::<raw::Int32>(3u32, v.begin)) && parts_encodable(opt_field_parts::<raw::Int32>(4u32, v.end)) && parts_encodable(set_parts(v.unknown_fields))),
{
    reveal(annotation_parts);
    let p0 = packed_parts::<raw::Int32>(1u32, v.path);
    let p1 = opt_field_parts::<raw::String>(2u32, v.source_file);
    let p2 = opt_field_parts::<raw::Int32>(3u32, v.begin);
    let p3 = opt_field_parts::<raw::Int32>(4u32, v.end);
    let p4 = set_parts(v.unknown_fields);
    let q4 = p4;
    let q3 = p3 + q4;
    lemma_parts_encodable_two(p3, q4);
    let q2 = p2 + q3;
    lemma_parts_encodable_two(p2, q3);
    let q1 = p1 + q2;
    lemma_parts_encodable_two(p1, q2);
    let q0 = p0 + q1;
    lemma_parts_encodable_two(p0, q1);
    assert(annotation_parts(v) == q0);
}

/// The bytes of the parts of a `Annotation` are those of each field's parts, one after the other.
proof fn lemma_annotation_parts_bytes(v: AnnotationView)
    ensures
        parts_bytes(annotation_parts(v)) == parts_bytes(packed_parts::<raw::Int32>(1u32, v.path)) + (parts_bytes(opt_field_parts::<raw::String>(2u32, v.source_file)) + (parts_bytes(opt_field_parts::<raw::Int32>(3u32, v.begin)) + (parts_bytes(opt_field_parts::<raw::Int32>(4u32, v.end)) + parts_bytes(set_parts(v.unknown_fields))))),
{
    reveal(annotation_parts);
    let p0 = packed_parts::<raw::Int32>(1u32, v.path);
    let p1 = opt_field_parts::<raw::String>(2u32, v.source_file);
    let p2 = opt_field_parts::<raw::Int32>(3u32, v.begin);
    let p3 = opt_field_parts::<raw::Int32>(4u32, v.end);
    let p4 = set_parts(v.unknown_fields);
    let q4 = p4;
    let q3 = p3 + q4;
    lemma_parts_bytes_append(p3, q4);
    let q2 = p2 + q3;
    lemma_parts_bytes_append(p2, q3);
    let q1 = p1 + q2;
    lemma_parts_bytes_append(p1, q2);
    let q0 = p0 + q1;
    lemma_parts_bytes_append(p0, q1);
    assert(annotation_parts(v) == q0);
}

/// The message a `Annotation` `d` becomes when `v` is merged into it: each field `v` holds once
/// replaces the one `d` holds, the values of each repeated field of `v` follow those of `d`,
/// and the unknown fields of `v` are added to those of `d`, field number by field number.
pub open spec fn annotation_merge_view(d: AnnotationView, v: AnnotationView) -> AnnotationView {
    AnnotationView { path: d.path + v.path, source_file: newer_or(v.source_file, d.source_file), begin: newer_or(v.begin, d.begin), end: newer_or(v.end, d.end), unknown_fields: view_merge(d.unknown_fields, v.unknown_fields) }
}

/// Reading the bytes of the parts of a `Annotation` `v`, field by field, into `d` merges `v` into `d`.
#[verifier::spinoff_prover]
#[verifier::rlimit(60)]
proof fn lemma_annotation_merge_all(d: AnnotationView, v: AnnotationView, depth: nat, limit: nat)
    requires
        parts_encodable(packed_parts::<raw::Int32>(1u32, v.path)),
        parts_encodable(opt_field_parts::<raw::String>(2u32, v.source_file)),
        parts_encodable(opt_field_parts::<raw::Int32>(3u32, v.begin)),
        parts_encodable(opt_field_parts::<raw::Int32>(4u32, v.end)),
        annotation_roundtrips(v, depth, limit),
        parts_bytes(annotation_parts(v)) == parts_bytes(packed_parts::<raw::Int32>(1u32, v.path)) + (parts_bytes(opt_field_parts::<raw::String>(2u32, v.source_file)) + (parts_bytes(opt_field_parts::<raw::Int32>(3u32, v.begin)) + (parts_bytes(opt_field_parts::<raw::Int32>(4u32, v.end)) + parts_bytes(set_parts(v.unknown_fields))))),
    ensures
        annotation_merged(d, parts_bytes(annotation_parts(v)), depth, limit, false, None) == Ok::<AnnotationView, ReadError>(annotation_merge_view(d, v)),
{
    let p0 = packed_parts::<raw::Int32>(1u32, v.path);
    let p1 = opt_field_parts::<raw::String>(2u32, v.source_file);
    let p2 = opt_field_parts::<raw::Int32>(3u32, v.begin);
    let p3 = opt_field_parts::<raw::Int32>(4u32, v.end);
    let p4 = set_parts(v.unknown_fields);
    let b0 = parts_bytes(p0);
    let b1 = parts_bytes(p1);
    let b2 = parts_bytes(p2);
    let b3 = parts_bytes(p3);
    let b4 = parts_bytes(p4);
    let r4 = b4;
    let r3 = b3 + r4;
    let r2 = b2 + r3;
    let r1 = b1 + r2;
    let r0 = b0 + r1;
    let d0 = d;
    let d1 = AnnotationView { path: d.path + v.path, ..d0 };
    assert(annotation_merged(d0, r0, depth, limit, false, None) == annotation_merged(d1, r1, depth, limit, false, None)) by {
        if v.path.len() > 0 {
            assert(p0[0].0);
        }
        lemma_annotation_read_path(d0, v.path, r1, depth, limit);
        assert(AnnotationView { path: d0.path + v.path, ..d0 } == d1);
    }
    let d2 = AnnotationView { source_file: newer_or(v.source_file, d.source_file), ..d1 };
    assert(annotation_merged(d1, r1, depth, limit, false, None) == annotation_merged(d2, r2, depth, limit, false, None)) by {
        lemma_annotation_read_source_file(d1, v.source_file, r2, depth, limit);
        assert((if v.source_file is Some { AnnotationView { source_file: v.source_file, ..d1 } } else { d1 }) == d2);
    }
    let d3 = AnnotationView { begin: newer_or(v.begin, d.begin), ..d2 };
    assert(annotation_merged(d2, r2, depth, limit, false, None) == annotation_merged(d3, r3, depth, limit, false, None)) by {
        lemma_annotation_read_begin(d2, v.begin, r3, depth, limit);
        assert((if v.begin is Some { AnnotationView { begin: v.begin, ..d2 } } else { d2 }) == d3);
    }
    let d4 = AnnotationView { end: newer_or(v.end, d.end), ..d3 };
    assert(annotation_merged(d3, r3, depth, limit, false, None) == annotation_merged(d4, r4, depth, limit, false, None)) by {
        lemma_annotation_read_end(d3, v.end, r4, depth, limit);
        assert((if v.end is Some { AnnotationView { end: v.end, ..d3 } } else { d3 }) == d4);
    }
    let ps = set_pairs(v.unknown_fields);
    assert(annotation_merged(d4, r4, depth, limit, false, None) == Ok::<AnnotationView, ReadError>(annotation_merge_view(d, v))) by {
        lemma_set_pairs(v.unknown_fields, d.unknown_fields);
        lemma_entries_readable(v.unknown_fields);
        assert forall|k: int| 0 <= k < ps.len() implies value_readable(#[trigger] ps[k].0, ps[k].1) && !annotation_known_tag(
            tag_value(ps[k].0, field_value_wire_type(ps[k].1)),
        ) by {
            assert(!annotation_known_tag(tag_value(set_pairs(v.unknown_fields)[k].0, field_value_wire_type(set_pairs(v.unknown_fields)[k].1))));
        }
        lemma_annotation_read_unknown(d4, ps, Seq::empty(), depth, limit);
        assert(b4 + Seq::<u8>::empty() =~= b4);
        let dl = AnnotationView { unknown_fields: push_pairs(d4.unknown_fields, ps), ..d4 };
        assert(dl == annotation_merge_view(d, v));
    }
}

/// Reading the bytes of the parts of a `Annotation`, field by field, gives the message back.
proof fn lemma_annotation_read_all(v: AnnotationView, depth: nat, limit: nat)
    requires
        parts_encodable(packed_parts::<raw::Int32>(1u32, v.path)),
        parts_encodable(opt_field_parts::<raw::String>(2u32, v.source_file)),
        parts_encodable(opt_field_parts::<raw::Int32>(3u32, v.begin)),
        parts_encodable(opt_field_parts::<raw::Int32>(4u32, v.end)),
        annotation_roundtrips(v, depth, limit),
        parts_bytes(annotation_parts(v)) == parts_bytes(packed_parts::<raw::Int32>(1u32, v.path)) + (parts_bytes(opt_field_parts::<raw::String>(2u32, v.source_file)) + (parts_bytes(opt_field_parts::<raw::Int32>(3u32, v.begin)) + (parts_bytes(opt_field_parts::<raw::Int32>(4u32, v.end)) + parts_bytes(set_parts(v.unknown_fields))))),
    ensures
        annotation_merged(annotation_default(), parts_bytes(annotation_parts(v)), depth, limit, false, None) == Ok::<AnnotationView, ReadError>(v),
{
    lemma_annotation_merge_all(annotation_default(), v, depth, limit);
    lemma_entries_readable(v.unknown_fields);
    lemma_merge_into_empty(v.unknown_fields);
    assert(Seq::empty() + v.path =~= v.path);
    assert(annotation_merge_view(annotation_default(), v) == v);
}

/// Merging what a `Annotation` `v` writes into a message `d` merges `v` into `d`: each field `v`
/// holds replaces the one `d` holds, repeated values follow those `d` holds, and unknown fields
/// are added to those of `d`, where `d` holds none of the message fields `v` holds (those are
/// merged into each other), at nesting depth `depth` of a reader with recursion limit `limit`
/// that keeps unknown fields, outside any group, where `v` is read back as written.
pub proof fn lemma_annotation_merge_written(d: AnnotationView, v: AnnotationView, depth: nat, limit: nat)
    requires
        parts_encodable(annotation_parts(v)),
        annotation_roundtrips(v, depth, limit),
    ensures
        annotation_merged(d, parts_bytes(annotation_parts(v)), depth, limit, false, None) == Ok::<AnnotationView, ReadError>(annotation_merge_view(d, v)),
{
    lemma_annotation_parts_encodable(v);
    lemma_annotation_parts_bytes(v);
    lemma_annotation_merge_all(d, v, depth, limit);
}

/// A `Annotation` is read back as it is written: merging the bytes of its parts into a default
/// message, at nesting depth `depth` of a reader with recursion limit `limit` that keeps
/// unknown fields, outside any group, gives the message back, where it is read back as written.
pub proof fn lemma_annotation_roundtrip(v: AnnotationView, depth: nat, limit: nat)
    requires
        parts_encodable(annotation_parts(v)),
        annotation_roundtrips(v, depth, limit),
    ensures
        annotation_merged(annotation_default(), parts_bytes(annotation_parts(v)), depth, limit, false, None) == Ok::<AnnotationView, ReadError>(v),
{
    lemma_annotation_parts_encodable(v);
    lemma_annotation_parts_bytes(v);
    lemma_annotation_read_all(v, depth, limit);
}

} // verus!
