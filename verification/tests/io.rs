use protrust::io::read::{CodedReader, Error as ReadError};
use protrust::io::write::{CodedWriter, Error as WriteError};
use protrust::io::{FieldNumber, IoErrorKind, Length, LengthBuilder, Tag, WireType};

#[test]
fn bit32_encode() {
    let value: u32 = 25;

    let mut output = [0u8; 4];
    let mut writer = CodedWriter::with_slice(&mut output);
    writer.write_bit32(value).unwrap();

    assert_eq!(output, value.to_le_bytes());
}

#[test]
fn bit64_encode() {
    let value: u64 = 25;

    let mut output = [0u8; 8];
    let mut writer = CodedWriter::with_slice(&mut output);
    writer.write_bit64(value).unwrap();

    assert_eq!(output, value.to_le_bytes());
}

#[test]
fn decode_bit32() {
    let bytes = [123, 0, 0, 0];
    let mut reader = CodedReader::with_slice(&bytes);

    assert_eq!(reader.read_bit32().unwrap(), 123);
}

#[test]
fn decode_bit64() {
    let bytes = [123, 0, 0, 0, 0, 0, 0, 0];
    let mut reader = CodedReader::with_slice(&bytes);

    assert_eq!(reader.read_bit64().unwrap(), 123);
}

#[test]
fn none_tag_marks_eof() {
    let data: [u8; 0] = [];
    let mut reader = CodedReader::with_slice(&data);

    assert!(matches!(reader.read_tag(), Ok(None)));
    assert_eq!(reader.last_tag(), None);
}

#[test]
fn roundtrip_many_values() {
    fn write(output: &mut CodedWriter) -> Result<(), WriteError> {
        output.write_tag(Tag::new(FieldNumber::new(1).unwrap(), WireType::Varint))?;
        output.write_varint32(1)?;
        output.write_tag(Tag::new(FieldNumber::new(2).unwrap(), WireType::Varint))?;
        output.write_varint64(u64::MAX)?;
        output.write_tag(Tag::new(FieldNumber::new(3).unwrap(), WireType::Bit32))?;
        output.write_bit32(123)?;
        output.write_tag(Tag::new(FieldNumber::new(4).unwrap(), WireType::Bit64))?;
        output.write_bit64(1234567890)?;
        output.write_tag(Tag::new(FieldNumber::new(5).unwrap(), WireType::LengthDelimited))?;
        output.write_length_delimited(&[12])?;
        Ok(())
    }
    fn read(input: &mut CodedReader) {
        assert_eq!(input.read_tag(), Ok(Some(Tag::new(FieldNumber::new(1).unwrap(), WireType::Varint))));
        assert_eq!(input.read_varint32(), Ok(1));
        assert_eq!(input.read_tag(), Ok(Some(Tag::new(FieldNumber::new(2).unwrap(), WireType::Varint))));
        assert_eq!(input.read_varint64(), Ok(u64::MAX));
        assert_eq!(input.read_tag(), Ok(Some(Tag::new(FieldNumber::new(3).unwrap(), WireType::Bit32))));
        assert_eq!(input.read_bit32(), Ok(123));
        assert_eq!(input.read_tag(), Ok(Some(Tag::new(FieldNumber::new(4).unwrap(), WireType::Bit64))));
        assert_eq!(input.read_bit64(), Ok(1234567890));
        assert_eq!(input.read_tag(), Ok(Some(Tag::new(FieldNumber::new(5).unwrap(), WireType::LengthDelimited))));
        assert_eq!(input.read_length_delimited(), Ok(vec![12u8]));
    }

    let mut data = [0u8; 30];
    let mut writer = CodedWriter::with_slice(&mut data);
    write(&mut writer).unwrap();

    let mut input = CodedReader::with_slice(&data);
    read(&mut input);
}

fn written<F: FnOnce(&mut CodedWriter) -> Result<(), WriteError>>(size: usize, f: F) -> Result<Vec<u8>, WriteError> {
    let mut output = vec![0u8; size];
    let mut writer = CodedWriter::with_slice(&mut output);
    f(&mut writer)?;
    let n = writer.position();
    Ok(output[..n].to_vec())
}

#[test]
fn write_varints() {
    assert_eq!(written(1, |w| w.write_varint32(0)), Ok(vec![0]));
    assert_eq!(written(2, |w| w.write_varint32(128)), Ok(vec![128, 1]));
    assert_eq!(written(5, |w| w.write_varint32(268435456)), Ok(vec![128, 128, 128, 128, 1]));
    assert_eq!(written(1, |w| w.write_varint64(0)), Ok(vec![0]));
    assert_eq!(written(2, |w| w.write_varint64(128)), Ok(vec![128, 1]));
    assert_eq!(
        written(10, |w| w.write_varint64(0x8000000000000000)),
        Ok(vec![128, 128, 128, 128, 128, 128, 128, 128, 128, 1])
    );
}

#[test]
fn write_fixed_and_delimited() {
    assert_eq!(written(4, |w| w.write_bit32(0)), Ok(vec![0, 0, 0, 0]));
    assert_eq!(written(8, |w| w.write_bit64(0)), Ok(vec![0; 8]));
    assert_eq!(written(4, |w| w.write_length_delimited(&[1, 2, 3])), Ok(vec![3, 1, 2, 3]));
}

#[test]
fn write_without_room() {
    assert_eq!(written(0, |w| w.write_varint32(10)), Err(WriteError::IoError(IoErrorKind::WriteZero)));
    assert_eq!(written(1, |w| w.write_varint64(300)), Err(WriteError::IoError(IoErrorKind::WriteZero)));
    assert_eq!(written(3, |w| w.write_bit32(10)), Err(WriteError::IoError(IoErrorKind::WriteZero)));
    assert_eq!(written(7, |w| w.write_bit64(10)), Err(WriteError::IoError(IoErrorKind::WriteZero)));
    assert_eq!(written(3, |w| w.write_length_delimited(&[1, 2, 3])), Err(WriteError::IoError(IoErrorKind::WriteZero)));
}

#[test]
fn read_tags() {
    let mut r = CodedReader::with_slice(&[8]);
    assert_eq!(r.read_tag().map(|t| t.map(Tag::get)), Ok(Some(8)));
    assert_eq!(r.read_tag(), Ok(None));

    let mut r = CodedReader::with_slice(&[128, 1]);
    assert_eq!(r.read_tag().map(|t| t.map(Tag::get)), Ok(Some(0x80)));

    let mut r = CodedReader::with_slice(&[128]);
    assert_eq!(r.read_tag(), Err(ReadError::IoError(IoErrorKind::UnexpectedEof)));

    let mut r = CodedReader::with_slice(&[128u8; 10]);
    assert_eq!(r.read_tag(), Err(ReadError::MalformedVarint));

    let mut r = CodedReader::with_slice(&[0]);
    assert_eq!(r.read_tag(), Err(ReadError::InvalidTag(0)));
}

#[test]
fn read_varints() {
    let mut r = CodedReader::with_slice(&[1]);
    assert_eq!(r.read_varint32(), Ok(1));
    let mut r = CodedReader::with_slice(&[128, 128, 128, 128, 1]);
    assert_eq!(r.read_varint32(), Ok(0x10000000));
    let mut r = CodedReader::with_slice(&[128, 128, 128, 128, 128, 128, 128, 128, 128, 1]);
    assert_eq!(r.read_varint32(), Ok(0));
    let mut r = CodedReader::with_slice(&[128, 128, 128, 128, 128, 128, 128, 128, 128, 1]);
    assert_eq!(r.read_varint64(), Ok(0x8000000000000000));
    let mut r = CodedReader::with_slice(&[128u8; 9]);
    assert_eq!(r.read_varint64(), Err(ReadError::IoError(IoErrorKind::UnexpectedEof)));
    let mut r = CodedReader::with_slice(&[128u8; 10]);
    assert_eq!(r.read_varint32(), Err(ReadError::MalformedVarint));
}

#[test]
fn read_fixed_and_delimited() {
    let mut r = CodedReader::with_slice(&[0x78, 0x56, 0x34, 0x12]);
    assert_eq!(r.read_bit32(), Ok(0x12345678));
    let mut r = CodedReader::with_slice(&[0xEF, 0xCD, 0xAB, 0x90, 0x78, 0x56, 0x34, 0x12]);
    assert_eq!(r.read_bit64(), Ok(0x1234567890ABCDEF));
    let mut r = CodedReader::with_slice(&[0, 0, 0]);
    assert_eq!(r.read_bit32(), Err(ReadError::IoError(IoErrorKind::UnexpectedEof)));

    let data = [12, b'H', b'e', b'l', b'l', b'o', b' ', b'w', b'o', b'r', b'l', b'd', b'!'];
    let mut r = CodedReader::with_slice(&data);
    assert_eq!(r.read_length_delimited(), Ok(b"Hello world!".to_vec()));
    assert_eq!(r.read_tag(), Ok(None));

    let mut r = CodedReader::with_slice(&data[..12]);
    assert_eq!(r.read_length_delimited(), Err(ReadError::IoError(IoErrorKind::UnexpectedEof)));
}

#[test]
fn skip_fields() {
    let mut r = CodedReader::with_slice(&[8, 128, 128, 128, 128, 128, 128, 128, 128, 128, 0]);
    assert_eq!(r.read_tag().map(|t| t.map(Tag::get)), Ok(Some(8)));
    assert_eq!(r.skip(), Ok(()));
    assert_eq!(r.read_tag(), Ok(None));

    let mut r = CodedReader::with_slice(&[13, 0, 0, 0, 0]);
    assert_eq!(r.read_tag().map(|t| t.map(Tag::get)), Ok(Some(13)));
    assert_eq!(r.skip(), Ok(()));
    assert_eq!(r.read_tag(), Ok(None));

    let mut r = CodedReader::with_slice(&[13, 0, 0, 0]);
    assert_eq!(r.read_tag().map(|t| t.map(Tag::get)), Ok(Some(13)));
    assert_eq!(r.skip(), Err(ReadError::IoError(IoErrorKind::UnexpectedEof)));
}

#[test]
fn nested_limits() {
    let data = [1u8, 0];
    let mut reader = CodedReader::with_slice(&data);

    let len = reader.read_length().unwrap();
    assert_eq!(len.get(), 1);
    let old = reader.push_length(len).unwrap();
    assert!(!reader.reached_limit());

    let nested = reader.read_length().unwrap();
    assert_eq!(nested.get(), 0);
    let nested_old = reader.push_length(nested).unwrap();
    assert!(reader.reached_limit());

    reader.pop_length(nested_old);
    assert!(reader.reached_limit());
    reader.pop_length(old);
    assert!(reader.reached_limit());
    assert_eq!(reader.read_tag(), Ok(None));
}

#[test]
fn lengths_and_tags() {
    assert_eq!(Length::new(-1), None);
    assert_eq!(Length::new(5).map(Length::get), Some(5));

    let b = LengthBuilder::new().add_bytes(Length::new(3).unwrap()).unwrap();
    let b = b.add_tag(Tag::new(FieldNumber::new(16).unwrap(), WireType::Varint)).unwrap();
    assert_eq!(b.build().get(), 5);
    assert_eq!(LengthBuilder::new().add_bytes(Length::new(i32::MAX).unwrap()).unwrap().add_bytes(Length::new(1).unwrap()).map(|b| b.build().get()), None);

    assert_eq!(FieldNumber::new(0), None);
    assert_eq!(FieldNumber::new(536_870_912), None);
    assert_eq!(FieldNumber::new(536_870_911).map(FieldNumber::get), Some(536_870_911));

    let tag = Tag::new(FieldNumber::new(5).unwrap(), WireType::LengthDelimited);
    assert_eq!(tag.get(), 42);
    assert_eq!(tag.field().get(), 5);
    assert_eq!(tag.wire_type(), WireType::LengthDelimited);
    assert!(Tag::try_from(0).is_err());
    assert!(Tag::try_from(7 | 8).is_err());
    assert_eq!(Tag::try_from(8).map(Tag::get), Ok(8));

    assert!(WireType::Varint.is_packable());
    assert!(!WireType::LengthDelimited.is_packable());
}
