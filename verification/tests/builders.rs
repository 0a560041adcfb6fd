//! Tests of the type, attribute, data set and group builders.

use rustyhdf5_format::attribute::AttributeMessage;
use rustyhdf5_format::data_read::{
    read_as_i32, read_as_i64, read_as_strings, read_enum_names, Number,
};
use rustyhdf5_format::dataspace::DataspaceType;
use rustyhdf5_format::datatype::{
    CharacterSet, Datatype, DatatypeByteOrder, EnumMember, ReferenceType, StringPadding,
};
use rustyhdf5_format::type_builders::{
    build_attr_message, scalar_ds, simple_1d, AttrValue, CompoundTypeBuilder, DatasetBuilder,
    EnumTypeBuilder, GroupBuilder,
};

#[test]
fn compound_builder_offsets() {
    let t = CompoundTypeBuilder::new()
        .f64_field("x")
        .i32_field("id")
        .u8_field("flag")
        .f32_field("w")
        .i64_field("t")
        .field("name", Datatype::string_null_padded_ascii(5))
        .build();
    match t {
        Datatype::Compound { size, members } => {
            assert_eq!(size, 8 + 4 + 1 + 4 + 8 + 5);
            let offsets: Vec<u64> = members.iter().map(|m| m.byte_offset).collect();
            assert_eq!(offsets, vec![0, 8, 12, 13, 17, 25]);
            assert_eq!(members[0].name, "x");
            assert_eq!(members[5].datatype, Datatype::string_null_padded_ascii(5));
        }
        _ => panic!("not a compound"),
    }
}

#[test]
fn enum_builder_and_names() {
    let t = EnumTypeBuilder::i32_based().value("RED", 0).value("BLUE", -2).build();
    assert_eq!(t.type_size(), 4);
    let mut ds = DatasetBuilder::new("colors");
    ds.with_enum_i32_data(t, &[-2, 0, -2]);
    let names = read_enum_names(ds.data.as_ref().unwrap(), ds.datatype.as_ref().unwrap()).unwrap();
    assert_eq!(names, vec!["BLUE", "RED", "BLUE"]);
    let t = EnumTypeBuilder::u8_based().u8_value("A", 1).u8_value("B", 255).build();
    assert_eq!(t.type_size(), 1);
    let mut ds = DatasetBuilder::new("letters");
    ds.with_enum_u8_data(t, &[255, 1]);
    let names = read_enum_names(ds.data.as_ref().unwrap(), ds.datatype.as_ref().unwrap()).unwrap();
    assert_eq!(names, vec!["B", "A"]);
}

#[test]
fn spaces_of_attributes() {
    let s = scalar_ds();
    assert_eq!(s.space_type, DataspaceType::Scalar);
    assert_eq!(s.num_elements(), 1);
    let s = simple_1d(7);
    assert_eq!(s.space_type, DataspaceType::Simple);
    assert_eq!(s.dimensions, vec![7]);
    assert_eq!(s.num_elements(), 7);
}

/// The attribute after its message has been written and read, in both versions.
fn through_message(a: &AttributeMessage) -> AttributeMessage {
    let b = AttributeMessage::parse(&a.serialize(8), 8).unwrap();
    let c = AttributeMessage::parse(&a.serialize_v3(8), 8).unwrap();
    assert_eq!(b.name, a.name);
    assert_eq!(c.name, a.name);
    assert_eq!(b.datatype, a.datatype);
    assert_eq!(c.datatype, a.datatype);
    assert_eq!(b.raw_data, a.raw_data);
    assert_eq!(c.raw_data, a.raw_data);
    assert_eq!(b.dataspace.dimensions, c.dataspace.dimensions);
    b
}

#[test]
fn attribute_values_are_read_back() {
    let a = build_attr_message("f", &AttrValue::F64(2.5f64.to_bits()));
    assert_eq!(
        through_message(&a).numbers_for_f64().unwrap(),
        vec![Number::Double(2.5f64.to_bits())]
    );
    let a = build_attr_message("fs", &AttrValue::F64Array(vec![1, 2, 3]));
    assert_eq!(
        through_message(&a).numbers_for_f64().unwrap(),
        vec![Number::Double(1), Number::Double(2), Number::Double(3)]
    );
    let a = build_attr_message("i", &AttrValue::I64(-42));
    assert_eq!(through_message(&a).read_as_i64().unwrap(), vec![-42]);
    let a = build_attr_message("is", &AttrValue::I64Array(vec![i64::MIN, -1, 0, i64::MAX]));
    assert_eq!(
        through_message(&a).read_as_i64().unwrap(),
        vec![i64::MIN, -1, 0, i64::MAX]
    );
    let a = build_attr_message("u", &AttrValue::U64(u64::MAX));
    assert_eq!(through_message(&a).read_as_u64().unwrap(), vec![u64::MAX]);
    let a = build_attr_message("s", &AttrValue::String("grün".to_string()));
    assert_eq!(
        a.datatype,
        Datatype::String {
            size: 5,
            padding: StringPadding::NullPad,
            charset: CharacterSet::Utf8,
        }
    );
    assert_eq!(through_message(&a).read_as_string().unwrap(), "grün");
    let list = vec!["a".to_string(), "".to_string(), "long".to_string()];
    let a = build_attr_message("ss", &AttrValue::StringArray(list.clone()));
    assert_eq!(a.raw_data, b"a\0\0\0\0\0\0\0long".to_vec());
    assert_eq!(through_message(&a).read_as_strings().unwrap(), list);
}

#[test]
fn empty_text_is_read_back() {
    let a = build_attr_message("s", &AttrValue::String(String::new()));
    assert_eq!(through_message(&a).read_as_string().unwrap(), "");
}

#[test]
fn dataset_builder_numbers() {
    let mut ds = DatasetBuilder::new("d");
    ds.with_f64_data(&[1.0f64.to_bits(), 2.0f64.to_bits()]);
    assert_eq!(ds.datatype, Some(Datatype::f64_le()));
    assert_eq!(ds.shape, Some(vec![2]));
    assert_eq!(ds.data.as_ref().unwrap()[8..16], 2.0f64.to_le_bytes());
    ds.with_f32_data(&[1.5f32.to_bits()]);
    assert_eq!(ds.datatype, Some(Datatype::f32_le()));
    assert_eq!(ds.data.as_ref().unwrap()[..], 1.5f32.to_le_bytes());
    ds.with_i32_data(&[-7, 9]);
    assert_eq!(read_as_i32(ds.data.as_ref().unwrap(), &Datatype::i32_le()).unwrap(), vec![-7, 9]);
    ds.with_i64_data(&[i64::MIN]);
    assert_eq!(
        read_as_i64(ds.data.as_ref().unwrap(), &Datatype::i64_le()).unwrap(),
        vec![i64::MIN]
    );
    ds.with_u8_data(&[1, 2, 3]);
    assert_eq!(ds.datatype, Some(Datatype::u8_le()));
    assert_eq!(ds.data, Some(vec![1, 2, 3]));
}

#[test]
fn dataset_builder_options() {
    let mut ds = DatasetBuilder::new("d");
    ds.with_u8_data(&[1, 2, 3, 4])
        .with_shape(&[2, 2])
        .with_maxshape(&[u64::MAX, 2])
        .with_chunks(&[1, 2])
        .with_deflate(4)
        .with_shuffle()
        .with_fletcher32()
        .set_attr("unit", AttrValue::String("m".to_string()))
        .with_provenance("me", "2024-01-01", Some("probe"));
    assert_eq!(ds.name, "d");
    assert_eq!(ds.shape, Some(vec![2, 2]));
    assert_eq!(ds.maxshape, Some(vec![u64::MAX, 2]));
    assert_eq!(ds.chunk_options.chunk_dims, Some(vec![1, 2]));
    assert_eq!(ds.chunk_options.deflate_level, Some(4));
    assert!(ds.chunk_options.shuffle);
    assert!(ds.chunk_options.fletcher32);
    assert_eq!(ds.attrs.len(), 1);
    assert_eq!(ds.attrs[0].0, "unit");
    let p = ds.provenance.unwrap();
    assert_eq!((p.creator.as_str(), p.timestamp.as_str()), ("me", "2024-01-01"));
    assert_eq!(p.source.as_deref(), Some("probe"));
}

#[test]
fn array_and_compound_data() {
    let mut ds = DatasetBuilder::new("d");
    ds.with_array_data(Datatype::u8_le(), &[2, 3], vec![0; 12], 2);
    assert_eq!(
        ds.datatype,
        Some(Datatype::Array { base_type: Box::new(Datatype::u8_le()), dimensions: vec![2, 3] })
    );
    assert_eq!(ds.shape, Some(vec![2]));
    let t = CompoundTypeBuilder::new().u8_field("a").build();
    // a shape that is set stays
    ds.with_compound_data(t.clone(), vec![9, 8, 7], 3);
    assert_eq!(ds.shape, Some(vec![2]));
    let mut ds = DatasetBuilder::new("e");
    ds.with_compound_data(t.clone(), vec![9, 8, 7], 3);
    assert_eq!(ds.datatype, Some(t));
    assert_eq!(ds.shape, Some(vec![3]));
}

#[test]
fn group_builder_collects() {
    let mut g = GroupBuilder::new("g");
    g.create_dataset("a").with_u8_data(&[1]);
    g.create_dataset("b").with_i32_data(&[2]);
    g.set_attr("k", AttrValue::I64(1));
    let done = g.finish();
    assert_eq!(done.name, "g");
    assert_eq!(done.datasets.len(), 2);
    assert_eq!(done.datasets[0].name, "a");
    assert_eq!(done.datasets[0].data, Some(vec![1]));
    assert_eq!(done.datasets[1].datatype, Some(Datatype::i32_le()));
    assert_eq!(done.attrs.len(), 1);
}

#[test]
fn damaged_text_is_repaired() {
    let t = Datatype::string_null_padded_ascii(3);
    assert_eq!(read_as_strings(&[b'a', 0xff, b'b'], &t).unwrap(), vec!["a\u{FFFD}b"]);
}

#[test]
fn enum_values_have_the_length_of_the_base_type() {
    let t = EnumTypeBuilder::u8_based().value("A", 1).value("B", -1).build();
    assert_eq!(
        t,
        Datatype::Enumeration {
            size: 1,
            base_type: Box::new(Datatype::u8_le()),
            members: vec![
                EnumMember { name: "A".to_string(), value: vec![1] },
                EnumMember { name: "B".to_string(), value: vec![255] },
            ],
        }
    );
    assert_eq!(Datatype::parse(&t.serialize()).unwrap().0, t);
    let t = EnumTypeBuilder::i32_based().u8_value("A", 200).build();
    match &t {
        Datatype::Enumeration { members, .. } => assert_eq!(members[0].value, vec![200, 0, 0, 0]),
        _ => panic!("not an enumeration"),
    }
    assert_eq!(Datatype::parse(&t.serialize()).unwrap().0, t);
}

#[test]
fn every_class_is_serialized() {
    let bits = Datatype::BitField {
        size: 2,
        byte_order: DatatypeByteOrder::BigEndian,
        bit_offset: 3,
        bit_precision: 12,
    };
    assert_eq!(bits.byte_order(), DatatypeByteOrder::BigEndian);
    assert_eq!(bits.serialize(), vec![0x14, 1, 0, 0, 2, 0, 0, 0, 3, 0, 12, 0]);
    let time = Datatype::Time { size: 4, bit_precision: 32 };
    assert_eq!(time.serialize(), vec![0x12, 0, 0, 0, 4, 0, 0, 0, 32, 0]);
    let opaque = Datatype::Opaque { size: 7, tag: b"raw".to_vec() };
    assert_eq!(
        opaque.serialize(),
        vec![0x15, 3, 0, 0, 7, 0, 0, 0, b'r', b'a', b'w', 0, 0, 0, 0, 0]
    );
    let object = Datatype::Reference { size: 8, ref_type: ReferenceType::Object };
    assert_eq!(object.serialize(), vec![0x17, 0, 0, 0, 8, 0, 0, 0]);
    let region = Datatype::Reference { size: 12, ref_type: ReferenceType::DatasetRegion };
    assert_eq!(region.serialize(), vec![0x17, 1, 0, 0, 12, 0, 0, 0]);
    for t in [bits, time, opaque, object, region] {
        let bytes = t.serialize();
        assert_eq!(Datatype::parse(&bytes).unwrap(), (t, bytes.len()));
    }
}
