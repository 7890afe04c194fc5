use e57::{
    get_max_packet_points, integer_bits, serialize_integer, update_max, update_min, validate_prototype,
    ByteStreamWriteBuffer, Error, Extension, Record, RecordDataType, RecordName, RecordValue,
};

fn rec(name: RecordName, data_type: RecordDataType) -> Record {
    Record { name, data_type }
}

fn double() -> RecordDataType {
    RecordDataType::Double { min: None, max: None }
}

fn int_type(min: i64, max: i64) -> RecordDataType {
    RecordDataType::Integer { min, max }
}

fn xyz() -> Vec<Record> {
    vec![
        rec(RecordName::CartesianX, double()),
        rec(RecordName::CartesianY, double()),
        rec(RecordName::CartesianZ, double()),
    ]
}

#[test]
fn valid_prototypes() {
    assert!(validate_prototype(&xyz()).is_ok());
    let spherical = vec![
        rec(RecordName::SphericalRange, double()),
        rec(RecordName::SphericalAzimuth, double()),
        rec(RecordName::SphericalElevation, double()),
    ];
    assert!(validate_prototype(&spherical).is_ok());
    let mut colored = xyz();
    colored.push(rec(RecordName::ColorRed, int_type(0, 255)));
    colored.push(rec(RecordName::ColorGreen, int_type(0, 255)));
    colored.push(rec(RecordName::ColorBlue, int_type(0, 255)));
    assert!(validate_prototype(&colored).is_ok());
}

#[test]
fn invalid_prototypes() {
    assert!(matches!(validate_prototype(&[]), Err(Error::Invalid { .. })));
    let mut missing_z = xyz();
    missing_z.pop();
    assert!(matches!(validate_prototype(&missing_z), Err(Error::Invalid { .. })));
    let mut partial_color = xyz();
    partial_color.push(rec(RecordName::ColorRed, int_type(0, 255)));
    assert!(matches!(validate_prototype(&partial_color), Err(Error::Invalid { .. })));
    let mut row_not_int = xyz();
    row_not_int.push(rec(RecordName::RowIndex, double()));
    assert!(matches!(validate_prototype(&row_not_int), Err(Error::Invalid { .. })));
    let mut invalid_intensity = xyz();
    invalid_intensity.push(rec(RecordName::IsIntensityInvalid, int_type(0, 1)));
    assert!(matches!(validate_prototype(&invalid_intensity), Err(Error::Invalid { .. })));
    let mut return_index_only = xyz();
    return_index_only.push(rec(RecordName::ReturnIndex, int_type(0, 3)));
    assert!(matches!(validate_prototype(&return_index_only), Err(Error::Invalid { .. })));
}

#[test]
fn max_packet_points() {
    // Three doubles: 192 bits per point.
    assert_eq!(get_max_packet_points(&xyz()), ((65535 - 6 - 6 - 3 - 500) * 8) / 192);
    let ints = vec![rec(RecordName::CartesianX, int_type(0, 1)), rec(RecordName::CartesianY, int_type(0, 3))];
    assert_eq!(get_max_packet_points(&ints), ((65535 - 6 - 4 - 2 - 500) * 8) / 3);
}

#[test]
fn min_and_max_updates() {
    let mut min = None;
    update_min(5, &mut min);
    assert_eq!(min, Some(5));
    update_min(7, &mut min);
    assert_eq!(min, Some(5));
    update_min(-3, &mut min);
    assert_eq!(min, Some(-3));
    let mut max = None;
    update_max(5, &mut max);
    assert_eq!(max, Some(5));
    update_max(2, &mut max);
    assert_eq!(max, Some(5));
    update_max(9, &mut max);
    assert_eq!(max, Some(9));
}

#[test]
fn bits_for_integer_ranges() {
    assert_eq!(integer_bits(0, 0), 0);
    assert_eq!(integer_bits(5, 5), 0);
    assert_eq!(integer_bits(0, 1), 1);
    assert_eq!(integer_bits(0, 2), 2);
    assert_eq!(integer_bits(0, 255), 8);
    assert_eq!(integer_bits(0, 256), 9);
    assert_eq!(integer_bits(-128, 127), 8);
    assert_eq!(integer_bits(i64::MIN, i64::MAX), 64);
    assert_eq!(integer_bits(10, 0), 0);
}

#[test]
fn serialized_integers() {
    let mut buffer = ByteStreamWriteBuffer::new();
    serialize_integer(3, 0, 255, &mut buffer);
    serialize_integer(-1, -1, 1000, &mut buffer);
    assert_eq!(buffer.get_all_bytes(), vec![3, 0, 0]);

    let mut buffer = ByteStreamWriteBuffer::new();
    serialize_integer(2, 0, 3, &mut buffer);
    serialize_integer(1, 0, 3, &mut buffer);
    serialize_integer(3, 0, 3, &mut buffer);
    serialize_integer(0, 0, 3, &mut buffer);
    assert_eq!(buffer.get_all_bytes(), vec![0b0011_0110]);
}

#[test]
fn data_type_sizes_and_limits() {
    assert_eq!(RecordDataType::Single { min: None, max: None }.bit_size(), 32);
    assert_eq!(double().bit_size(), 64);
    assert_eq!(int_type(0, 1023).bit_size(), 10);
    assert_eq!(RecordDataType::ScaledInteger { min: -8, max: 7, scale: 0 }.bit_size(), 4);
    assert_eq!(int_type(-1, 5).limits(), (Some(RecordValue::Integer(-1)), Some(RecordValue::Integer(5))));
    assert_eq!(double().limits(), (None, None));
    assert_eq!(
        RecordDataType::Single { min: Some(1), max: None }.limits(),
        (Some(RecordValue::Single(1)), None)
    );
}

#[test]
fn data_type_write_checks_value_kind() {
    let mut buffer = ByteStreamWriteBuffer::new();
    assert!(int_type(0, 255).write(&RecordValue::Integer(200), &mut buffer).is_ok());
    assert!(matches!(int_type(0, 255).write(&RecordValue::Double(0), &mut buffer), Err(Error::Invalid { .. })));
    assert!(double().write(&RecordValue::Double(1.5_f64.to_bits()), &mut buffer).is_ok());
    let mut expected = vec![200_u8];
    expected.extend_from_slice(&1.5_f64.to_le_bytes());
    assert_eq!(buffer.get_all_bytes(), expected);
}

#[test]
fn record_names_and_tags() {
    let names = [
        (RecordName::CartesianX, "cartesianX"),
        (RecordName::SphericalAzimuth, "sphericalAzimuth"),
        (RecordName::IsColorInvalid, "isColorInvalid"),
        (RecordName::TimeStamp, "timeStamp"),
        (RecordName::IsTimeStampInvalid, "isTimeStampInvalid"),
    ];
    for (name, tag) in names {
        assert_eq!(name.tag_name(), tag);
        assert_eq!(name.namespace(), None);
        let back = RecordName::from_namespace_and_tag_name(None, tag).unwrap();
        assert!(back.is_same(&name));
    }
    let ext = RecordName::from_namespace_and_tag_name(Some("ext"), "custom").unwrap();
    assert_eq!(ext.tag_name(), "custom");
    assert_eq!(ext.namespace(), Some("ext"));
    assert!(matches!(RecordName::from_namespace_and_tag_name(None, "custom"), Err(Error::Invalid { .. })));
    assert!(!RecordName::CartesianX.is_same(&RecordName::CartesianY));
}

#[test]
fn extension_attributes_need_registration() {
    let mut prototype = xyz();
    prototype.push(rec(RecordName::Unknown { namespace: "ext".into(), name: "value".into() }, int_type(0, 1)));
    assert!(matches!(Extension::validate_prototype(&prototype, &[]), Err(Error::Invalid { .. })));
    let extensions = vec![Extension::new("ext", "http://example.com")];
    assert!(Extension::validate_prototype(&prototype, &extensions).is_ok());
    let bad_name = vec![rec(RecordName::Unknown { namespace: "ext".into(), name: "bad.name".into() }, int_type(0, 1))];
    assert!(matches!(Extension::validate_prototype(&bad_name, &extensions), Err(Error::Invalid { .. })));
}

#[test]
fn integer_value_conversions() {
    let byte = int_type(0, 255);
    assert_eq!(RecordValue::Integer(200).to_u8(&byte).unwrap(), 200);
    assert!(matches!(RecordValue::Integer(200).to_u8(&int_type(0, 256)), Err(Error::Internal { .. })));
    assert!(matches!(RecordValue::Double(0).to_u8(&byte), Err(Error::Internal { .. })));
    assert_eq!(RecordValue::Integer(-5).to_i64(&int_type(-10, 10)).unwrap(), -5);
    assert!(matches!(RecordValue::ScaledInteger(1).to_i64(&int_type(0, 1)), Err(Error::Internal { .. })));
}

#[test]
fn limits_from_record_types() {
    let limits = e57::IntensityLimits::from_record_type(&int_type(0, 4095));
    assert_eq!(limits.intensity_min, Some(RecordValue::Integer(0)));
    assert_eq!(limits.intensity_max, Some(RecordValue::Integer(4095)));
    let limits = e57::ColorLimits::from_record_types(
        &int_type(0, 255),
        &RecordDataType::Single { min: Some(0), max: Some(1.0_f32.to_bits()) },
        &double(),
    );
    assert_eq!(limits.red_min, Some(RecordValue::Integer(0)));
    assert_eq!(limits.red_max, Some(RecordValue::Integer(255)));
    assert_eq!(limits.green_min, Some(RecordValue::Single(0)));
    assert_eq!(limits.green_max, Some(RecordValue::Single(1.0_f32.to_bits())));
    assert_eq!(limits.blue_min, None);
    assert_eq!(limits.blue_max, None);
}
