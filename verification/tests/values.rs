use protrust::collections::RepeatedField;
use protrust::descriptor::field_descriptor_proto::Type;
use protrust::io::read::{CodedReader, Error as ReadError};
use protrust::io::write::{CodedWriter, Error as WriteError};
use protrust::io::{FieldNumber, IoErrorKind, Length, LengthBuilder};
use protrust::raw::{self, Value};
use protrust::{merge, Mergable};

fn encode<V: Value>(value: &V::Inner) -> Vec<u8> {
    let len = Length::of_value::<V>(value).unwrap().get() as usize;
    let mut output = vec![0u8; len];
    let mut writer = CodedWriter::with_slice(&mut output);
    writer.write_value::<V>(value).unwrap();
    assert_eq!(writer.remaining(), 0);
    output
}

fn decode<V: Value>(bytes: &[u8]) -> Result<V::Inner, ReadError> {
    let mut reader = CodedReader::with_slice(bytes);
    reader.read_value::<V>()
}

#[test]
fn varint_values() {
    assert_eq!(encode::<raw::Int32>(&1), vec![1]);
    assert_eq!(encode::<raw::Int32>(&-1), vec![255, 255, 255, 255, 255, 255, 255, 255, 255, 1]);
    assert_eq!(encode::<raw::Uint32>(&300), vec![172, 2]);
    assert_eq!(encode::<raw::Int64>(&-2), vec![254, 255, 255, 255, 255, 255, 255, 255, 255, 1]);
    assert_eq!(encode::<raw::Uint64>(&u64::MAX), vec![255, 255, 255, 255, 255, 255, 255, 255, 255, 1]);
    assert_eq!(encode::<raw::Bool>(&true), vec![1]);
    assert_eq!(encode::<raw::Bool>(&false), vec![0]);
    assert_eq!(encode::<raw::Enum<Type>>(&Type(9)), vec![9]);

    assert_eq!(decode::<raw::Int32>(&[255, 255, 255, 255, 255, 255, 255, 255, 255, 1]), Ok(-1));
    assert_eq!(decode::<raw::Uint32>(&[172, 2]), Ok(300));
    assert_eq!(decode::<raw::Bool>(&[2]), Ok(true));
    assert_eq!(decode::<raw::Enum<Type>>(&[9]), Ok(Type(9)));
}

#[test]
fn zigzag_values() {
    assert_eq!(encode::<raw::Sint32>(&0), vec![0]);
    assert_eq!(encode::<raw::Sint32>(&-1), vec![1]);
    assert_eq!(encode::<raw::Sint32>(&1), vec![2]);
    assert_eq!(encode::<raw::Sint32>(&-2), vec![3]);
    assert_eq!(encode::<raw::Sint32>(&i32::MIN), vec![255, 255, 255, 255, 15]);
    assert_eq!(encode::<raw::Sint64>(&-1), vec![1]);
    assert_eq!(encode::<raw::Sint64>(&i64::MAX), vec![254, 255, 255, 255, 255, 255, 255, 255, 255, 1]);

    for v in [0, 1, -1, 2, -2, 1000, -1000, i32::MAX, i32::MIN] {
        assert_eq!(decode::<raw::Sint32>(&encode::<raw::Sint32>(&v)), Ok(v));
    }
    for v in [0, 1, -1, i64::MAX, i64::MIN] {
        assert_eq!(decode::<raw::Sint64>(&encode::<raw::Sint64>(&v)), Ok(v));
    }
}

#[test]
fn fixed_values() {
    assert_eq!(encode::<raw::Fixed32>(&0x12345678), vec![0x78, 0x56, 0x34, 0x12]);
    assert_eq!(encode::<raw::Fixed64>(&1), vec![1, 0, 0, 0, 0, 0, 0, 0]);
    assert_eq!(encode::<raw::Sfixed32>(&-1), vec![255, 255, 255, 255]);
    assert_eq!(encode::<raw::Sfixed64>(&-2), vec![254, 255, 255, 255, 255, 255, 255, 255]);
    assert_eq!(decode::<raw::Sfixed32>(&[255, 255, 255, 255]), Ok(-1));
    assert_eq!(decode::<raw::Fixed64>(&[1, 0, 0, 0, 0, 0, 0]), Err(ReadError::IoError(IoErrorKind::UnexpectedEof)));
}

#[test]
fn length_delimited_values() {
    assert_eq!(encode::<raw::String>(&"hi".to_string()), vec![2, b'h', b'i']);
    assert_eq!(decode::<raw::String>(&[2, b'h', b'i']), Ok("hi".to_string()));
    assert_eq!(decode::<raw::String>(&[2, 0xff, 0xfe]), Err(ReadError::InvalidString));
    assert_eq!(encode::<raw::Bytes<Vec<u8>>>(&vec![1, 2, 3]), vec![3, 1, 2, 3]);
    assert_eq!(decode::<raw::Bytes<Vec<u8>>>(&[0]), Ok(vec![]));
    assert_eq!(decode::<raw::Bytes<Vec<u8>>>(&[3, 1]), Err(ReadError::IoError(IoErrorKind::UnexpectedEof)));
}

#[test]
fn value_sizes() {
    assert_eq!(Length::of_value::<raw::Uint64>(&0).map(Length::get), Some(1));
    assert_eq!(Length::of_value::<raw::Uint64>(&u64::MAX).map(Length::get), Some(10));
    assert_eq!(Length::of_value::<raw::Int32>(&-1).map(Length::get), Some(10));
    assert_eq!(Length::of_value::<raw::Fixed32>(&7).map(Length::get), Some(4));
    assert_eq!(Length::of_value::<raw::String>(&"abc".to_string()).map(Length::get), Some(4));
}

#[test]
fn fields_and_sizes() {
    let num = FieldNumber::new(2).unwrap();
    let b = LengthBuilder::new().add_field::<raw::Uint32>(num, &150).unwrap();
    assert_eq!(b.build().get(), 3);

    let mut output = [0u8; 3];
    let mut writer = CodedWriter::with_slice(&mut output);
    writer.write_field::<raw::Uint32>(num, &150).unwrap();
    assert_eq!(output, [16, 150, 1]);

    let mut small = [0u8; 2];
    let mut writer = CodedWriter::with_slice(&mut small);
    assert_eq!(writer.write_field::<raw::Uint32>(num, &150), Err(WriteError::IoError(IoErrorKind::WriteZero)));
}

#[test]
fn repeated_values() {
    let num = FieldNumber::new(1).unwrap();
    let values: RepeatedField<i32> = vec![1, 2, 3];

    // (1 byte tag + 1 byte value) * 3 values
    assert_eq!(Length::of_values::<_, raw::Sint32>(&values, num).map(Length::get), Some(6));
    // (1 byte tag + 1 byte length) + 3 values * 1 byte
    assert_eq!(Length::of_values::<_, raw::Packed<raw::Sint32>>(&values, num).map(Length::get), Some(5));

    let mut output = [0u8; 5];
    let mut writer = CodedWriter::with_slice(&mut output);
    writer.write_values::<_, raw::Packed<raw::Sint32>>(&values, num).unwrap();
    assert_eq!(output, [10, 3, 2, 4, 6]);

    let empty: RepeatedField<i32> = Vec::new();
    assert_eq!(Length::of_values::<_, raw::Packed<raw::Sint32>>(&empty, num).map(Length::get), Some(0));
}

#[test]
fn merge_repeated() {
    let mut a: RepeatedField<u32> = vec![1, 2];
    let b: RepeatedField<u32> = vec![3];
    a.merge(&b);
    assert_eq!(a, vec![1, 2, 3]);
    merge(&mut a, &b);
    assert_eq!(a, vec![1, 2, 3, 3]);
}

#[test]
fn packed_values_read_back() {
    let num = FieldNumber::new(3).unwrap();
    let values: RepeatedField<i64> = vec![-1, 0, 150, i64::MIN];
    let size = Length::of_values::<_, raw::Packed<raw::Sint64>>(&values, num).unwrap().get() as usize;
    let mut data = vec![0u8; size];
    let mut writer = CodedWriter::with_slice(&mut data);
    writer.write_values::<_, raw::Packed<raw::Sint64>>(&values, num).unwrap();
    assert_eq!(writer.remaining(), 0);

    let mut reader = CodedReader::with_slice(&data);
    assert!(reader.read_tag().unwrap().is_some());
    let mut read: RepeatedField<i64> = Vec::new();
    reader.add_entries_to::<_, raw::Packed<raw::Sint64>>(&mut read).unwrap();
    assert_eq!(read, values);
    assert_eq!(reader.read_tag(), Ok(None));
}
