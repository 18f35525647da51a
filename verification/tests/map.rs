use protrust::collections::map::MapField;
use protrust::io::read::{CodedReader, Error as ReadError};
use protrust::io::write::{CodedWriter, Error as WriteError};
use protrust::io::{FieldNumber, IoErrorKind, LengthBuilder};
use protrust::raw;

fn num(n: u32) -> FieldNumber {
    FieldNumber::new(n).unwrap()
}

fn map_of(entries: &[(i32, &str)]) -> MapField<i32, String> {
    let mut map = MapField::new();
    for (k, v) in entries {
        map.insert(*k, v.to_string());
    }
    map
}

fn written(map: &MapField<i32, String>, n: u32) -> Vec<u8> {
    let len = map
        .calculate_size::<raw::Int32, raw::String>(LengthBuilder::new(), num(n))
        .unwrap()
        .build()
        .get() as usize;
    let mut output = vec![0u8; len];
    let mut writer = CodedWriter::with_slice(&mut output);
    map.write_to::<raw::Int32, raw::String>(&mut writer, num(n)).unwrap();
    assert_eq!(writer.remaining(), 0);
    output
}

fn read_into(map: &mut MapField<i32, String>, bytes: &[u8]) -> Result<(), ReadError> {
    let mut reader = CodedReader::with_slice(bytes);
    while reader.remaining() > 0 {
        match reader.read_tag()? {
            Some(_) => map.add_entries_from::<raw::Int32, raw::String>(&mut reader)?,
            None => break,
        }
    }
    Ok(())
}

#[test]
fn map_insert_replaces_value() {
    let mut map: MapField<i32, String> = MapField::new();
    assert!(map.is_empty());
    assert_eq!(map.insert(1, "a".to_string()), None);
    assert_eq!(map.insert(2, "b".to_string()), None);
    assert_eq!(map.insert(1, "c".to_string()), Some("a".to_string()));
    assert_eq!(map.len(), 2);
    assert_eq!(map.get(&1), Some(&"c".to_string()));
    assert_eq!(map.get(&2), Some(&"b".to_string()));
    assert_eq!(map.get(&3), None);
}

#[test]
fn map_entry_bytes() {
    let map = map_of(&[(1, "a")]);
    assert_eq!(written(&map, 5), vec![0x2A, 5, 0x08, 1, 0x12, 1, b'a']);

    let map = map_of(&[(1, "a"), (300, "")]);
    assert_eq!(
        written(&map, 5),
        vec![0x2A, 5, 0x08, 1, 0x12, 1, b'a', 0x2A, 5, 0x08, 172, 2, 0x12, 0],
    );
    assert_eq!(
        map.calculate_size::<raw::Int32, raw::String>(LengthBuilder::new(), num(5)).unwrap().build().get(),
        14,
    );
    assert!(map.is_initialized());
}

#[test]
fn map_empty_writes_nothing() {
    let map = map_of(&[]);
    assert_eq!(
        map.calculate_size::<raw::Int32, raw::String>(LengthBuilder::new(), num(5)).unwrap().build().get(),
        0,
    );
    assert_eq!(written(&map, 5), Vec::<u8>::new());
}

#[test]
fn map_no_room() {
    let map = map_of(&[(1, "a")]);
    let mut output = vec![0u8; 3];
    let mut writer = CodedWriter::with_slice(&mut output);
    assert_eq!(
        map.write_to::<raw::Int32, raw::String>(&mut writer, num(5)),
        Err(WriteError::IoError(IoErrorKind::WriteZero)),
    );
}

#[test]
fn map_written_is_read_back() {
    let map = map_of(&[(3, "three"), (-1, "minus one"), (0, "")]);
    let bytes = written(&map, 7);
    let mut read = MapField::new();
    read_into(&mut read, &bytes).unwrap();
    assert_eq!(read.len(), 3);
    assert_eq!(read.get(&3), Some(&"three".to_string()));
    assert_eq!(read.get(&-1), Some(&"minus one".to_string()));
    assert_eq!(read.get(&0), Some(&"".to_string()));
}

#[test]
fn map_entry_missing_parts_get_defaults() {
    let mut map = MapField::new();
    // an entry with only a key, then one with only a value
    read_into(&mut map, &[0x2A, 2, 0x08, 7, 0x2A, 3, 0x12, 1, b'x']).unwrap();
    assert_eq!(map.len(), 2);
    assert_eq!(map.get(&7), Some(&"".to_string()));
    assert_eq!(map.get(&0), Some(&"x".to_string()));
}

#[test]
fn map_entry_fields_in_any_order() {
    let mut map = MapField::new();
    read_into(&mut map, &[0x2A, 5, 0x12, 1, b'v', 0x08, 4]).unwrap();
    assert_eq!(map.get(&4), Some(&"v".to_string()));
    // a later entry with the same key replaces its value
    read_into(&mut map, &[0x2A, 5, 0x08, 4, 0x12, 1, b'w']).unwrap();
    assert_eq!(map.len(), 1);
    assert_eq!(map.get(&4), Some(&"w".to_string()));
}

#[test]
fn map_entry_errors_leave_map_unchanged() {
    let mut map = map_of(&[(1, "a")]);
    // the entry is longer than the input
    assert_eq!(
        read_into(&mut map, &[0x2A, 9, 0x08, 1]),
        Err(ReadError::IoError(IoErrorKind::UnexpectedEof)),
    );
    // a negative length
    assert_eq!(
        read_into(&mut map, &[0x2A, 0xFF, 0xFF, 0xFF, 0xFF, 0x0F]),
        Err(ReadError::NegativeSize),
    );
    // the value is not UTF-8
    assert_eq!(read_into(&mut map, &[0x2A, 5, 0x08, 2, 0x12, 1, 0xFF]), Err(ReadError::InvalidString));
    assert_eq!(map.len(), 1);
    assert_eq!(map.get(&1), Some(&"a".to_string()));
}

#[test]
fn map_merge_merges_values_and_adds_keys() {
    let mut map: MapField<i32, Vec<u8>> = MapField::new();
    map.insert(1, vec![1]);
    map.insert(2, vec![2]);
    let mut other: MapField<i32, Vec<u8>> = MapField::new();
    other.insert(2, vec![3]);
    other.insert(3, vec![4]);
    protrust::merge(&mut map, &other);
    assert_eq!(map.len(), 3);
    assert_eq!(map.get(&1), Some(&vec![1]));
    assert_eq!(map.get(&2), Some(&vec![2, 3]));
    assert_eq!(map.get(&3), Some(&vec![4]));
    assert_eq!(other.len(), 2);
}

#[test]
fn map_bool_and_string_keys() {
    let mut map: MapField<String, u64> = MapField::new();
    map.insert("a".to_string(), 1);
    map.insert("b".to_string(), 2);
    let len = map
        .calculate_size::<raw::String, raw::Uint64>(LengthBuilder::new(), num(1))
        .unwrap()
        .build()
        .get() as usize;
    let mut output = vec![0u8; len];
    let mut writer = CodedWriter::with_slice(&mut output);
    map.write_to::<raw::String, raw::Uint64>(&mut writer, num(1)).unwrap();
    assert_eq!(output, vec![0x0A, 5, 0x0A, 1, b'a', 0x10, 1, 0x0A, 5, 0x0A, 1, b'b', 0x10, 2]);

    let mut read: MapField<String, u64> = MapField::new();
    let mut reader = CodedReader::with_slice(&output);
    while let Some(_) = reader.read_tag().unwrap() {
        read.add_entries_from::<raw::String, raw::Uint64>(&mut reader).unwrap();
    }
    assert_eq!(read.get(&"a".to_string()), Some(&1));
    assert_eq!(read.get(&"b".to_string()), Some(&2));

    let mut flags: MapField<bool, bool> = MapField::new();
    flags.insert(true, false);
    assert_eq!(flags.get(&true), Some(&false));
    assert_eq!(flags.get(&false), None);
}

#[test]
fn map_entry_other_fields_are_skipped() {
    let mut map = MapField::new();
    // field 3, a varint, after the key is skipped as the key's value was
    read_into(&mut map, &[0x2A, 6, 0x08, 1, 0x18, 5, 0x12, 0]).unwrap();
    assert_eq!(map.len(), 1);
    assert_eq!(map.get(&1), Some(&"".to_string()));
}
