use protrust::io::buffered::{StreamReader, StreamWriter};
use protrust::io::read::{CodedReader, Error as ReadError};
use protrust::io::write::CodedWriter;
use protrust::io::IoErrorKind;

const CAPACITIES: [usize; 5] = [0, 1, 5, 10, 8192];

#[test]
fn stream_reads_varints() {
    for cap in CAPACITIES {
        let data: &[u8] = &[1];
        let mut r = StreamReader::with_capacity(cap, data);
        assert_eq!(r.read_varint64(), Ok(1));
        assert_eq!(r.read_varint64(), Err(ReadError::IoError(IoErrorKind::UnexpectedEof)));

        let data: &[u8] = &[128, 128, 128, 128, 128, 128, 128, 128, 128, 1];
        let mut r = StreamReader::with_capacity(cap, data);
        assert_eq!(r.read_varint64(), Ok(0x8000000000000000));

        let data: &[u8] = &[128; 10];
        let mut r = StreamReader::with_capacity(cap, data);
        assert_eq!(r.read_varint64(), Err(ReadError::MalformedVarint));

        let data: &[u8] = &[128; 9];
        let mut r = StreamReader::with_capacity(cap, data);
        assert_eq!(r.read_varint64(), Err(ReadError::IoError(IoErrorKind::UnexpectedEof)));
    }
}

#[test]
fn stream_varint_written_is_read_back() {
    let mut buf = [0u8; 10];
    let mut w = CodedWriter::with_slice(&mut buf);
    w.write_varint64(u64::MAX).unwrap();
    assert!(w.into_inner().is_empty());
    for cap in CAPACITIES {
        let data: &[u8] = &buf;
        let mut r = StreamReader::with_capacity(cap, data);
        assert_eq!(r.read_varint64(), Ok(u64::MAX));
    }
}

#[test]
fn stream_reads_exactly() {
    for cap in CAPACITIES {
        let data: &[u8] = &[1, 2, 3, 4, 5, 6, 7];
        let mut r = StreamReader::with_capacity(cap, data);
        let mut out = [0u8; 3];
        r.read_exact(&mut out).unwrap();
        assert_eq!(out, [1, 2, 3]);
        r.skip(2).unwrap();
        let mut out = [0u8; 2];
        r.read_exact(&mut out).unwrap();
        assert_eq!(out, [6, 7]);
        let mut out = [0u8; 1];
        assert_eq!(r.read_exact(&mut out), Err(ReadError::IoError(IoErrorKind::UnexpectedEof)));
    }
}

#[test]
fn stream_buffer_is_filled_in_parts() {
    let data: &[u8] = &[10, 20, 30, 40, 50];
    let mut r = StreamReader::with_capacity(3, data);
    assert_eq!(r.read_buffer_partial(), Ok(3));
    assert_eq!(r.buffered_bytes(), &[10, 20, 30]);
    // the buffer is full: nothing more is read
    assert_eq!(r.read_buffer_partial(), Ok(0));
    r.consume(2);
    assert_eq!(r.buffered_bytes(), &[30]);
    assert_eq!(r.read_buffer_partial(), Ok(2));
    assert_eq!(r.buffered_bytes(), &[30, 40, 50]);
    r.consume(3);
    assert_eq!(r.read_buffer_partial(), Ok(0));
    assert!(r.into_inner().is_empty());
}

#[test]
fn stream_messages_parsed_from_the_buffer() {
    // a tag of field 1 as a varint, then 150
    let data: &[u8] = &[8, 150, 1];
    let mut r = StreamReader::with_stream(data);
    r.fill(3).unwrap();
    let mut reader = CodedReader::with_slice(r.buffered_bytes());
    let tag = reader.read_tag().unwrap().unwrap();
    assert_eq!(tag.get(), 8);
    assert_eq!(reader.read_varint32(), Ok(150));
    assert_eq!(r.fill(4), Err(ReadError::IoError(IoErrorKind::UnexpectedEof)));
}

#[test]
fn stream_writer_gathers_bytes() {
    for cap in [0usize, 1, 2, 4, 8192] {
        let mut w = StreamWriter::with_write(cap, Vec::new());
        w.write_bytes(&[1, 2]).unwrap();
        w.write_bytes(&[3]).unwrap();
        w.write_bytes(&[4, 5, 6]).unwrap();
        w.flush().unwrap();
        w.write_bytes(&[7]).unwrap();
        let out = match w.into_inner() {
            Ok(v) => v,
            Err(_) => panic!("a vector never fails"),
        };
        assert_eq!(out, vec![1, 2, 3, 4, 5, 6, 7]);
    }
}

#[test]
fn written_bytes_are_in_the_callers_slice() {
    for (value, expected) in [(0u32, vec![0u8]), (128, vec![128, 1]), (268435456, vec![128, 128, 128, 128, 1])] {
        let mut out = vec![0u8; expected.len()];
        let mut w = CodedWriter::with_slice(&mut out);
        w.write_varint32(value).unwrap();
        assert_eq!(w.written_bytes(), expected.as_slice());
        assert!(w.into_inner().is_empty());
        assert_eq!(out, expected);
    }
}

#[test]
fn failed_write_leaves_the_slice() {
    let mut out = [7u8; 1];
    let mut w = CodedWriter::with_slice(&mut out);
    assert!(w.write_varint32(128).is_err());
    assert_eq!(w.written_bytes(), &[] as &[u8]);
    assert_eq!(w.into_inner().len(), 1);
    assert_eq!(out, [7]);
}
