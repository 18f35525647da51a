use protrust::collections::unknown_fields::{FieldSet, TryRead};
use protrust::extend::set::{ExtensionRegistry, ExtensionSet, RegistryBuilder};
use protrust::extend::{Extension, ExtensionConflict, ExtensionValue, RepeatedExtension, TryReadValue};
use protrust::io::read::CodedReader;
use protrust::io::write::CodedWriter;
use protrust::io::{FieldNumber, LengthBuilder};
use protrust::raw;

static DEFAULT_NUMBER: u32 = 7;

#[test]
fn extension_identifiers() {
    let num = FieldNumber::new(100).unwrap();
    let ext = Extension::<raw::Uint32>::with_no_default(num);
    assert_eq!(ext.field_number(), num);
    assert_eq!(ext.default_value(), None);

    let ext = Extension::<raw::Uint32>::with_owned_default(num, 5);
    assert_eq!(ext.default_value(), Some(&5));

    let ext = Extension::<raw::Uint32>::with_static_default(num, &DEFAULT_NUMBER);
    assert_eq!(ext.default_value(), Some(&7));

    let entry = ext.new_entry(9);
    assert_eq!(entry.num, num);
    assert_eq!(entry.value, 9);
}

#[test]
fn extension_values_read_and_written() {
    let num = FieldNumber::new(100).unwrap();
    let ext = Extension::<raw::Uint32>::with_no_default(num);

    // tag of field 100 as a varint, then 150
    let data = [160, 6, 150, 1];
    let mut reader = CodedReader::with_slice(&data);
    reader.read_tag().unwrap();
    let value = match ext.try_read_value(&mut reader).unwrap() {
        TryReadValue::Consumed(v) => v,
        TryReadValue::Yielded => panic!("the extension's field was not read"),
    };
    assert_eq!(value.value, 150);

    let size = value.calculate_size(LengthBuilder::new()).unwrap().build().get();
    assert_eq!(size, 4);
    let mut output = [0u8; 4];
    let mut writer = CodedWriter::with_slice(&mut output);
    value.write_to(&mut writer).unwrap();
    assert_eq!(output, data);

    // another field is left alone
    let other = [168, 6, 1];
    let mut reader = CodedReader::with_slice(&other);
    reader.read_tag().unwrap();
    let mut value = ExtensionValue::<raw::Uint32> { value: 3, num };
    assert!(matches!(value.try_merge_from(&mut reader), Ok(TryReadValue::Yielded)));
    assert_eq!(value.value, 3);
    assert!(value.is_initialized());
}

#[test]
fn repeated_extension_values() {
    let num = FieldNumber::new(2).unwrap();
    let ext = RepeatedExtension::<raw::Uint32>::new(num);
    assert_eq!(ext.field_number(), num);

    let data = [16, 1, 16, 2];
    let mut reader = CodedReader::with_slice(&data);
    reader.read_tag().unwrap();
    let mut values = match ext.try_read_value(&mut reader).unwrap() {
        TryReadValue::Consumed(v) => v,
        TryReadValue::Yielded => panic!("the extension's field was not read"),
    };
    reader.read_tag().unwrap();
    assert!(matches!(values.try_merge_from(&mut reader), Ok(TryReadValue::Consumed(()))));
    assert_eq!(values.value, vec![1, 2]);

    assert_eq!(values.calculate_size(LengthBuilder::new()).unwrap().build().get(), 4);
    let mut output = [0u8; 4];
    let mut writer = CodedWriter::with_slice(&mut output);
    values.write_to(&mut writer).unwrap();
    assert_eq!(output, data);
}

#[test]
fn packed_repeated_extension_values() {
    let num = FieldNumber::new(2).unwrap();
    let ext = RepeatedExtension::<raw::Packed<raw::Uint32>>::new(num);
    assert_eq!(ext.field_number(), num);

    // a single value with the values' own wire type
    let data = [16, 1];
    let mut reader = CodedReader::with_slice(&data);
    reader.read_tag().unwrap();
    let mut values = match ext.try_read_value(&mut reader).unwrap() {
        TryReadValue::Consumed(v) => v,
        TryReadValue::Yielded => panic!("the extension's field was not read"),
    };
    assert_eq!(values.value, vec![1]);

    // a packed run of values is added to them
    let packed = [18, 2, 2, 3];
    let mut reader = CodedReader::with_slice(&packed);
    reader.read_tag().unwrap();
    assert!(matches!(values.try_merge_from(&mut reader), Ok(TryReadValue::Consumed(()))));
    assert_eq!(values.value, vec![1, 2, 3]);
    assert!(values.is_initialized());

    // written packed: tag, length and the values
    assert_eq!(values.calculate_size(LengthBuilder::new()).unwrap().build().get(), 5);
    let mut output = [0u8; 5];
    let mut writer = CodedWriter::with_slice(&mut output);
    values.write_to(&mut writer).unwrap();
    assert_eq!(output, [18, 3, 1, 2, 3]);

    // another field number is left alone
    let other = [26, 1, 5];
    let mut reader = CodedReader::with_slice(&other);
    reader.read_tag().unwrap();
    assert!(matches!(values.try_merge_from(&mut reader), Ok(TryReadValue::Yielded)));
    assert!(matches!(ext.try_read_value(&mut reader), Ok(TryReadValue::Yielded)));
    assert_eq!(values.value, vec![1, 2, 3]);
}

#[test]
fn registry_refuses_a_second_identifier_for_a_field_number() {
    let num = FieldNumber::new(100).unwrap();
    let builder = RegistryBuilder::<Extension<raw::Uint32>>::new();
    let builder = match builder.add_identifier(Extension::with_no_default(num)) {
        Ok(b) => b,
        Err(_) => panic!("the first identifier was refused"),
    };
    let builder = match builder.add_identifier(Extension::with_no_default(FieldNumber::new(101).unwrap())) {
        Ok(b) => b,
        Err(_) => panic!("an identifier for another field number was refused"),
    };
    match builder.add_identifier(Extension::with_owned_default(num, 4)) {
        Ok(_) => panic!("a second identifier for field 100 was accepted"),
        Err(ExtensionConflict(n)) => assert_eq!(n, num),
    }
}

fn uint32_registry(nums: &[u32]) -> ExtensionRegistry<Extension<raw::Uint32>> {
    let mut builder = RegistryBuilder::new();
    for n in nums {
        builder = match builder.add_identifier(Extension::with_owned_default(FieldNumber::new(*n).unwrap(), 5)) {
            Ok(b) => b,
            Err(_) => panic!("conflict"),
        };
    }
    builder.build()
}

#[test]
fn extension_set_reads_registered_fields() {
    let registry = uint32_registry(&[100]);
    assert!(registry.contains(FieldNumber::new(100).unwrap()));
    assert!(!registry.contains(FieldNumber::new(101).unwrap()));

    let mut set = ExtensionSet::<Extension<raw::Uint32>>::new();
    assert!(set.registry().is_none());
    assert!(set.replace_registry(Some(registry)).is_none());
    assert!(set.registry().is_some());

    // field 100 = 150, field 101 = 1, field 100 = 3
    let data = [160, 6, 150, 1, 168, 6, 1, 160, 6, 3];
    let mut reader = CodedReader::with_slice(&data);

    let ext = Extension::<raw::Uint32>::with_owned_default(FieldNumber::new(100).unwrap(), 5);
    let other = Extension::<raw::Uint32>::with_owned_default(FieldNumber::new(101).unwrap(), 5);
    reader.read_tag().unwrap();
    assert_eq!(set.try_add_field_from(&mut reader).unwrap(), TryRead::Consumed);
    assert!(set.has_extension(&ext));
    assert_eq!(set.value(&ext), Some(&150));

    // a field the registry does not know is left to others, and nothing is read
    reader.read_tag().unwrap();
    assert_eq!(set.try_add_field_from(&mut reader).unwrap(), TryRead::Yielded);
    assert!(!set.has_extension(&other));
    assert!(!set.has_extension_unchecked(&other));
    reader.skip().unwrap();

    // a field the set holds is merged into its value
    reader.read_tag().unwrap();
    assert_eq!(set.try_add_field_from(&mut reader).unwrap(), TryRead::Consumed);
    assert_eq!(reader.read_tag().unwrap(), None);

    assert_eq!(set.value(&ext), Some(&3));
    assert_eq!(set.value_or_default(&ext), Some(&3));
    assert_eq!(set.value(&other), None);
    assert_eq!(set.value_or_default(&other), Some(&5));
    let none = Extension::<raw::Uint32>::with_no_default(FieldNumber::new(102).unwrap());
    assert_eq!(set.value_or_default(&none), None);

    // the set is written as its one value
    assert_eq!(set.calculate_size(LengthBuilder::new()).unwrap().build().get(), 3);
    let mut output = [0u8; 3];
    let mut writer = CodedWriter::with_slice(&mut output);
    set.write_to(&mut writer).unwrap();
    assert_eq!(output, [160, 6, 3]);
    assert!(set.is_initialized());

    // replacing the registry drops the values
    let old = set.replace_registry(None);
    assert!(old.is_some());
    assert!(set.registry().is_none());
    assert!(!set.has_extension_unchecked(&ext));
    assert_eq!(set.value_or_default(&ext), Some(&5));
}

#[test]
fn extension_set_without_registry_yields() {
    let mut set = ExtensionSet::<Extension<raw::Uint32>>::new();
    let data = [160, 6, 150, 1];
    let mut reader = CodedReader::with_slice(&data);
    // no tag read yet: the field counts as read
    assert_eq!(set.try_add_field_from(&mut reader).unwrap(), TryRead::Consumed);
    reader.read_tag().unwrap();
    assert_eq!(set.try_add_field_from(&mut reader).unwrap(), TryRead::Yielded);
    let ext = Extension::<raw::Uint32>::with_no_default(FieldNumber::new(100).unwrap());
    assert!(!set.has_extension(&ext));
    assert_eq!(set.value_or_default(&ext), None);
    assert_eq!(set.calculate_size(LengthBuilder::new()).unwrap().build().get(), 0);
}

#[test]
fn registries_are_added_to_builders() {
    let builder = RegistryBuilder::<Extension<raw::Uint32>>::new();
    let builder = match builder.add_registry(uint32_registry(&[1, 2])) {
        Ok(b) => b,
        Err(_) => panic!("a registry added to an empty builder was refused"),
    };
    let builder = match builder.add_registry(uint32_registry(&[3])) {
        Ok(b) => b,
        Err(_) => panic!("a registry without shared numbers was refused"),
    };
    let registry = builder.build();
    for n in [1, 2, 3] {
        assert!(registry.contains(FieldNumber::new(n).unwrap()));
    }

    let builder = RegistryBuilder::<Extension<raw::Uint32>>::new();
    let builder = match builder.add_identifier(Extension::with_no_default(FieldNumber::new(2).unwrap())) {
        Ok(b) => b,
        Err(_) => panic!("the first identifier was refused"),
    };
    match builder.add_registry(uint32_registry(&[1, 2])) {
        Ok(_) => panic!("a registry sharing field 2 was accepted"),
        Err(ExtensionConflict(n)) => assert_eq!(n.get(), 2),
    }
}
