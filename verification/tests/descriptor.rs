use protrust::collections::unknown_fields::UnknownField;
use protrust::descriptor::field_descriptor_proto::{Label, Type};
use protrust::descriptor::descriptor_proto::{ExtensionRange, ReservedRange};
use protrust::descriptor::source_code_info::Location;
use protrust::descriptor::{DescriptorProto, FieldDescriptorProto, FileDescriptorProto, FileDescriptorSet};
use protrust::io::read::{CodedReader, Error as ReadError};
use protrust::io::write::CodedWriter;
use protrust::io::{FieldNumber, IoErrorKind, Length};
use protrust::reflect::DebugMessage;

fn written(size: Option<Length>, write: impl FnOnce(&mut CodedWriter)) -> Vec<u8> {
    let mut output = vec![0u8; size.unwrap().get() as usize];
    let mut writer = CodedWriter::with_slice(&mut output);
    write(&mut writer);
    assert_eq!(writer.remaining(), 0);
    output
}

#[test]
fn file_accessors() {
    let mut file = FileDescriptorProto::default();
    assert!(!file.has_name());
    assert_eq!(file.name(), "");

    file.set_name("a.proto".to_string());
    assert!(file.has_name());
    assert_eq!(file.name(), "a.proto");
    file.name_mut().push_str("x");
    assert_eq!(file.name(), "a.protox");
    assert_eq!(file.take_name(), Some("a.protox".to_string()));
    assert!(!file.has_name());

    file.set_syntax("proto2".to_string());
    file.clear_syntax();
    assert!(!file.has_syntax());

    assert!(!file.has_options());
    file.options_mut();
    assert!(file.has_options());
    file.clear_options();
    assert!(file.options_option().is_none());
    assert!(file.is_initialized());
}

#[test]
fn field_enums() {
    let mut field = FieldDescriptorProto::default();
    assert_eq!(field.field_type(), Type::TYPE_DOUBLE());
    assert_eq!(field.label(), Label::LABEL_OPTIONAL());
    field.set_type(Type::TYPE_STRING());
    field.set_label(Label::LABEL_REPEATED());
    field.set_number(4);
    assert_eq!(field.field_type(), Type(9));
    assert_eq!(field.label(), Label(3));
    assert_eq!(field.number(), 4);
}

#[test]
fn file_written_and_read_back() {
    let mut file = FileDescriptorProto::default();
    file.set_name("a.proto".to_string());
    file.dependency_mut().push("b.proto".to_string());
    file.public_dependency_mut().push(1);
    file.message_type_mut().push(DescriptorProto::default());

    // in field number order: name and dependency, each tag + length + 7 bytes; message type:
    // tag + empty length; public dependency: tag + value.
    assert_eq!(file.calculate_size().map(Length::get), Some(22));
    let bytes = written(file.calculate_size(), |w| file.write_to(w).unwrap());
    assert_eq!(
        bytes,
        [
            10, 7, b'a', b'.', b'p', b'r', b'o', b't', b'o', 26, 7, b'b', b'.', b'p', b'r', b'o', b't', b'o',
            34, 0, 80, 1,
        ]
    );

    let mut read = FileDescriptorProto::default();
    let mut reader = CodedReader::with_slice(&bytes);
    read.merge_from(&mut reader).unwrap();
    assert_eq!(read.dependency(), &vec!["b.proto".to_string()]);
    assert_eq!(read.public_dependency(), &vec![1]);
    assert_eq!(read.message_type().len(), 1);
    assert_eq!(read.name(), "a.proto");
}

#[test]
fn file_read_fields() {
    // name "a.p", packed public dependencies 1 and 2, and an unknown varint field 25
    let data = [10, 3, b'a', b'.', b'p', 82, 2, 1, 2, 200, 1, 5];
    let mut file = FileDescriptorProto::default();
    let mut reader = CodedReader::with_slice(&data);
    file.merge_from(&mut reader).unwrap();
    assert_eq!(file.name(), "a.p");
    assert_eq!(file.public_dependency(), &vec![1, 2]);
    assert_eq!(file.unknown_fields().values(FieldNumber::new(25).unwrap()).len(), 1);
    assert_eq!(file.unknown_fields().field_len(), 1);

    // the name, the public dependencies (unpacked) and the unknown field are written back
    assert_eq!(file.calculate_size().map(Length::get), Some(12));
}

#[test]
fn truncated_input() {
    let data = [10, 3, b'a'];
    let mut file = FileDescriptorProto::default();
    let mut reader = CodedReader::with_slice(&data);
    assert_eq!(file.merge_from(&mut reader), Err(ReadError::IoError(IoErrorKind::UnexpectedEof)));
}

#[test]
fn nested_messages() {
    let mut inner = DescriptorProto::default();
    inner.reserved_name_mut().push("x".to_string());
    let mut outer = DescriptorProto::default();
    outer.nested_type_mut().push(inner);
    let mut set = FileDescriptorSet::default();
    let mut file = FileDescriptorProto::default();
    file.message_type_mut().push(outer);
    set.file_mut().push(file);

    // reserved name: 1 + 1 + 1 = 3; nested type: 1 + 1 + 3 = 5; message type: 1 + 1 + 5 = 7;
    // file: 1 + 1 + 7 = 9
    assert_eq!(set.calculate_size().map(Length::get), Some(9));
    let bytes = written(set.calculate_size(), |w| set.write_to(w).unwrap());
    assert_eq!(bytes, [10, 7, 34, 5, 26, 3, 82, 1, b'x']);

    let mut read = FileDescriptorSet::default();
    let mut reader = CodedReader::with_slice(&bytes);
    read.merge_from(&mut reader).unwrap();
    let name = &read.file()[0].message_type()[0].nested_type()[0].reserved_name()[0];
    assert_eq!(name, "x");
}

#[test]
fn packed_paths() {
    let mut location = Location::default();
    location.path_mut().push(1);
    location.path_mut().push(2);
    location.span_mut().push(300);
    assert_eq!(location.calculate_size().map(Length::get), Some(8));
    let bytes = written(location.calculate_size(), |w| location.write_to(w).unwrap());
    assert_eq!(bytes, [10, 2, 1, 2, 18, 2, 172, 2]);

    let mut read = Location::default();
    let mut reader = CodedReader::with_slice(&bytes);
    read.merge_from(&mut reader).unwrap();
    assert_eq!(read.path(), &vec![1, 2]);
    assert_eq!(read.span(), &vec![300]);
}

#[test]
fn message_read_back_as_written() {
    let mut field = FieldDescriptorProto::default();
    field.unknown_fields_mut().push_value(FieldNumber::new(100).unwrap(), UnknownField::Varint(7));
    let mut message = DescriptorProto::default();
    message.field_mut().push(field);
    message.reserved_name_mut().push("r".to_string());
    let mut nested = DescriptorProto::default();
    nested.reserved_name_mut().push("n".to_string());
    message.nested_type_mut().push(nested);

    let bytes = written(message.calculate_size(), |w| message.write_to(w).unwrap());
    let mut read = DescriptorProto::default();
    let mut reader = CodedReader::with_slice(&bytes);
    read.merge_from(&mut reader).unwrap();

    assert_eq!(read.field().len(), 1);
    assert_eq!(read.field()[0].unknown_fields().values(FieldNumber::new(100).unwrap()).len(), 1);
    assert_eq!(read.reserved_name(), &vec!["r".to_string()]);
    assert_eq!(read.nested_type()[0].reserved_name(), &vec!["n".to_string()]);
    let again = written(read.calculate_size(), |w| read.write_to(w).unwrap());
    assert_eq!(again, bytes);
}

#[test]
fn names() {
    assert_eq!(Type::TYPE_STRING().debug_name(), Some("TYPE_STRING"));
    assert_eq!(Label::LABEL_REPEATED().debug_name(), Some("LABEL_REPEATED"));
    assert_eq!(Type(100).debug_name(), None);
    assert_eq!(<DescriptorProto as DebugMessage>::full_name(), "google.protobuf.DescriptorProto");
    assert_eq!(<Location as DebugMessage>::full_name(), "google.protobuf.SourceCodeInfo.Location");
    assert_eq!(<Location as DebugMessage>::name(), "Location");
}

fn read_message<M: protrust::Message + Default>(bytes: &[u8]) -> M {
    let mut message = M::default();
    let mut reader = CodedReader::with_slice(bytes);
    message.merge_from(&mut reader).unwrap();
    message
}

fn message_size<M: protrust::Message>(message: &M) -> i32 {
    protrust::Message::calculate_size(message).unwrap().get()
}

#[test]
fn message_trait_unknown_fields() {
    let mut range: ReservedRange = read_message(&[32, 23]);
    assert!(protrust::Message::is_initialized(&range));
    let values = protrust::Message::unknown_fields(&range).values(FieldNumber::new(4).unwrap());
    assert_eq!(values.len(), 1);
    assert!(matches!(values[0], UnknownField::Varint(23)));
    assert_eq!(message_size(&range), 2);

    let mut output = vec![0u8; 2];
    let mut writer = CodedWriter::with_slice(&mut output);
    protrust::Message::write_to(&range, &mut writer).unwrap();
    assert_eq!(output, vec![32, 23]);

    let unknown = protrust::Message::unknown_fields_mut(&mut range);
    unknown.clear();
    assert_eq!(unknown.field_len(), 0);
    assert_eq!(message_size(&range), 0);
}

#[test]
fn message_trait_reads_known_fields() {
    let range: ReservedRange = read_message(&[8, 5, 16, 100]);
    assert_eq!(range.start(), 5);
    assert_eq!(range.end(), 100);
    assert_eq!(protrust::Message::unknown_fields(&range).field_len(), 0);
}

#[test]
fn singular_fields_are_written() {
    let mut range = ExtensionRange::default();
    range.set_start(1);
    assert_eq!(range.calculate_size().map(Length::get), Some(2));
    range.set_end(300);
    assert_eq!(written(range.calculate_size(), |w| range.write_to(w).unwrap()), [8, 1, 16, 172, 2]);

    let mut file = FileDescriptorProto::default();
    file.set_name("a".to_string());
    let mut output = [0u8; 3];
    let mut writer = CodedWriter::with_slice(&mut output);
    file.write_to(&mut writer).unwrap();
    assert_eq!(writer.remaining(), 0);
    assert_eq!(output, [10, 1, 97]);
    let mut read = FileDescriptorProto::default();
    read.merge_from(&mut CodedReader::with_slice(&output)).unwrap();
    assert_eq!(read.name(), "a");
    assert!(!read.has_package());
}

#[test]
fn file_set_files() {
    let mut set = FileDescriptorSet::default();
    assert!(set.file().is_empty());
    set.file_mut().push(FileDescriptorProto::default());
    assert_eq!(set.file().len(), 1);
}

#[test]
fn messages_clone_and_debug() {
    let mut f = FieldDescriptorProto::default();
    f.set_name(String::from("x"));
    let g = f.clone();
    assert_eq!(g.name(), "x");
    let mut d = DescriptorProto::default();
    d.set_name(String::from("M"));
    let text = format!("{:?}", d);
    assert!(text.contains("\"M\""));
}
