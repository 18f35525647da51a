use protrust::collections::unknown_fields::{TryRead, UnknownField, UnknownFieldSet};
use protrust::io::read::{CodedReader, Error as ReadError};
use protrust::io::write::CodedWriter;
use protrust::io::{FieldNumber, Length, Tag, WireType};
use protrust::raw;
use protrust::Mergable;

fn num(n: u32) -> FieldNumber {
    FieldNumber::new(n).unwrap()
}

#[test]
fn field_set_sizes() {
    let set = {
        let mut set = UnknownFieldSet::new();
        set.push_value(num(1), UnknownField::Bit32(513));
        set
    };
    assert_eq!(Length::of_fields(&set).unwrap().get(), 5);

    let set = {
        let mut set = UnknownFieldSet::new();
        set.push_value(num(1), UnknownField::Bit32(513));
        set.push_value(num(1), UnknownField::Bit32(1));
        set
    };

    assert_eq!(Length::of_fields(&set).unwrap().get(), 10);

    let set = {
        let group = set;
        let mut set = UnknownFieldSet::new();
        set.push_value(num(1), UnknownField::Group(group));
        set
    };

    assert_eq!(Length::of_fields(&set).unwrap().get(), 12);
}

#[test]
fn read() {
    let mut set = UnknownFieldSet::new();
    set.push_value(num(1), UnknownField::Varint(120));

    let number = num(1);
    let mut data = [0u8; 64];
    let len = {
        let mut output = CodedWriter::with_slice(&mut data);

        output.write_tag(Tag::new(number, WireType::Varint)).unwrap();
        output.write_value::<raw::Int32>(&10).unwrap();
        output.write_tag(Tag::new(number, WireType::Varint)).unwrap();
        output.write_value::<raw::Int64>(&10).unwrap();
        output.write_tag(Tag::new(number, WireType::Bit32)).unwrap();
        output.write_value::<raw::Fixed32>(&10).unwrap();
        output.write_tag(Tag::new(number, WireType::Bit64)).unwrap();
        output.write_value::<raw::Fixed64>(&10).unwrap();

        output.write_tag(Tag::new(number, WireType::StartGroup)).unwrap();
        output.write_tag(Tag::new(num(2), WireType::Varint)).unwrap();
        output.write_value::<raw::Int32>(&10).unwrap();
        output.write_tag(Tag::new(number, WireType::EndGroup)).unwrap();

        output.position()
    };

    let mut reader = CodedReader::with_slice(&data[..len]);

    for _ in 0..5 {
        assert!(reader.read_tag().unwrap().is_some());
        set.try_add_field_from(&mut reader).unwrap().or_skip(&mut reader).unwrap();
    }
    assert_eq!(reader.read_tag(), Ok(None));

    assert_eq!(set.values(number).len(), 6); // existing field + 5 added fields. the group counts as one field
    match &set.values(number)[5] {
        UnknownField::Group(g) => {
            assert_eq!(g.values(num(2)).len(), 1);
            assert!(matches!(g.values(num(2))[0], UnknownField::Varint(10)));
        },
        _ => panic!("expected a group"),
    }
}

#[test]
fn push_pop_and_clear() {
    let mut set = UnknownFieldSet::new();
    set.push_value(num(3), UnknownField::Varint(1));
    set.push_value(num(4), UnknownField::Bit64(2));
    set.push_value(num(3), UnknownField::Varint(5));
    assert_eq!(set.field_len(), 2);
    assert_eq!(set.values(num(3)).len(), 2);
    assert_eq!(set.values(num(9)).len(), 0);

    assert!(matches!(set.pop_value(num(3)), Some(UnknownField::Varint(5))));
    assert!(matches!(set.values(num(3)), [UnknownField::Varint(1)]));
    assert!(matches!(set.pop_value(num(9)), None));

    set.push_value(num(5), UnknownField::LengthDelimited(vec![1, 2]));
    set.clear_field(num(3));
    assert_eq!(set.values(num(3)).len(), 0);
    assert_eq!(set.values(num(4)).len(), 1);
    assert_eq!(set.values(num(5)).len(), 1);
    let numbers: Vec<u32> = set.field_numbers().into_iter().map(FieldNumber::get).collect();
    assert_eq!(numbers, vec![5, 4]);

    set.clear();
    assert_eq!(set.field_len(), 0);
}

#[test]
fn write_fields_in_order() {
    let mut set = UnknownFieldSet::new();
    set.push_value(num(2), UnknownField::Varint(150));
    set.push_value(num(1), UnknownField::LengthDelimited(vec![7]));
    set.push_value(num(2), UnknownField::Bit32(1));

    assert_eq!(Length::of_fields(&set).map(Length::get), Some(11));
    let mut output = [0u8; 11];
    let mut writer = CodedWriter::with_slice(&mut output);
    writer.write_fields(&set).unwrap();
    assert_eq!(output, [16, 150, 1, 21, 1, 0, 0, 0, 10, 1, 7]);
}

#[test]
fn end_group_and_skipping() {
    let mut set = UnknownFieldSet::new();
    let data = [12u8];
    let mut reader = CodedReader::with_slice(&data);
    assert!(reader.read_tag().unwrap().is_some());
    assert_eq!(set.try_add_field_from(&mut reader), Ok(TryRead::Yielded));
    assert_eq!(set.add_field_from(&mut reader), Err(ReadError::InvalidTag(12)));
    assert_eq!(set.field_len(), 0);
}

#[test]
fn merge_and_clone_sets() {
    let mut a = UnknownFieldSet::new();
    a.push_value(num(1), UnknownField::Varint(1));
    a.push_value(num(2), UnknownField::Varint(2));

    let mut group = UnknownFieldSet::new();
    group.push_value(num(7), UnknownField::Bit32(7));
    let mut b = UnknownFieldSet::new();
    b.push_value(num(3), UnknownField::Group(group));
    b.push_value(num(1), UnknownField::Varint(10));
    b.push_value(num(1), UnknownField::Varint(11));

    let copy = b.clone();
    a.merge(&b);
    assert!(matches!(a.values(num(1)), [UnknownField::Varint(1), UnknownField::Varint(10), UnknownField::Varint(11)]));
    assert!(matches!(a.values(num(2)), [UnknownField::Varint(2)]));
    assert_eq!(a.values(num(3)).len(), 1);
    let numbers: Vec<u32> = a.field_numbers().into_iter().map(FieldNumber::get).collect();
    assert_eq!(numbers, vec![1, 2, 3]);

    assert_eq!(Length::of_fields(&copy), Length::of_fields(&b));
    match &copy.values(num(3))[0] {
        UnknownField::Group(g) => assert!(matches!(g.values(num(7)), [UnknownField::Bit32(7)])),
        _ => panic!("expected a group"),
    }
}

#[test]
fn set_written_is_read_back() {
    let mut group = UnknownFieldSet::new();
    group.push_value(num(4), UnknownField::LengthDelimited(vec![9, 8]));
    let mut set = UnknownFieldSet::new();
    set.push_value(num(2), UnknownField::Varint(300));
    set.push_value(num(1), UnknownField::Group(group));
    set.push_value(num(2), UnknownField::Bit64(7));

    let size = Length::of_fields(&set).unwrap().get() as usize;
    let mut data = vec![0u8; size];
    let mut writer = CodedWriter::with_slice(&mut data);
    writer.write_fields(&set).unwrap();
    assert_eq!(writer.remaining(), 0);

    let mut read = UnknownFieldSet::new();
    let mut reader = CodedReader::with_slice(&data);
    while reader.read_tag().unwrap().is_some() {
        assert_eq!(read.try_add_field_from(&mut reader), Ok(TryRead::Consumed));
    }
    let numbers: Vec<u32> = read.field_numbers().into_iter().map(FieldNumber::get).collect();
    assert_eq!(numbers, vec![2, 1]);
    assert!(matches!(read.values(num(2)), [UnknownField::Varint(300), UnknownField::Bit64(7)]));
    match read.values(num(1)) {
        [UnknownField::Group(g)] => match g.values(num(4)) {
            [UnknownField::LengthDelimited(b)] => assert_eq!(b, &vec![9, 8]),
            _ => panic!("expected the group's bytes"),
        },
        _ => panic!("expected a group"),
    }
    assert_eq!(Length::of_fields(&read).unwrap().get() as usize, size);
}

#[test]
fn skipped_fields_are_left() {
    let data = [8u8, 1, 16, 2];
    let mut set = UnknownFieldSet::new();
    let mut reader = CodedReader::with_slice(&data);
    assert!(reader.read_tag().unwrap().is_some());
    let r = TryRead::Yielded.or_try(&mut set, &mut reader).unwrap();
    assert_eq!(r, TryRead::Consumed);
    assert!(reader.read_tag().unwrap().is_some());
    assert_eq!(TryRead::Yielded.or_skip(&mut reader), Ok(()));
    assert_eq!(TryRead::Consumed.or_skip(&mut reader), Ok(()));
    assert_eq!(reader.read_tag(), Ok(None));
    assert_eq!(set.values(num(1)).len(), 1);
    assert_eq!(set.values(num(2)).len(), 0);
}

#[test]
fn fields_drain_and_drain_values() {
    let mut set = UnknownFieldSet::new();
    let three = FieldNumber::new(3).unwrap();
    let five = FieldNumber::new(5).unwrap();
    set.push_value(three, UnknownField::Varint(1));
    set.push_value(five, UnknownField::Bit32(2));
    set.push_value(three, UnknownField::Varint(3));
    set.push_value(three, UnknownField::Varint(4));

    let fields = set.fields();
    assert_eq!(fields.len(), 2);
    assert_eq!(fields[0].0.get(), 3);
    assert_eq!(fields[0].1.len(), 3);
    assert_eq!(fields[1].0.get(), 5);
    assert!(matches!(fields[1].1[0], UnknownField::Bit32(2)));

    let drained = set.drain_values(three, 0, 2);
    assert_eq!(drained.len(), 2);
    assert!(matches!(drained[0], UnknownField::Varint(1)));
    assert!(matches!(drained[1], UnknownField::Varint(3)));
    assert_eq!(set.values(three).len(), 1);
    assert!(matches!(set.values(three)[0], UnknownField::Varint(4)));
    assert_eq!(set.drain_values(FieldNumber::new(9).unwrap(), 0, 7).len(), 0);

    let all = set.drain();
    assert_eq!(set.field_len(), 0);
    assert_eq!(all.len(), 2);
    assert_eq!(all[0].0.get(), 3);
    assert_eq!(all[0].1.len(), 1);
    assert_eq!(all[1].0.get(), 5);
    assert_eq!(all[1].1.len(), 1);
}
