use e57::{
    CompressedVectorWriter, Error, PagedReader, PagedWriter, QueueReader, Record, RecordDataType, RecordName,
    RecordValue,
};

fn xyz_prototype() -> Vec<Record> {
    vec![
        Record { name: RecordName::CartesianX, data_type: RecordDataType::Double { min: None, max: None } },
        Record { name: RecordName::CartesianY, data_type: RecordDataType::Double { min: None, max: None } },
        Record { name: RecordName::CartesianZ, data_type: RecordDataType::Double { min: None, max: None } },
        Record {
            name: RecordName::CartesianInvalidState,
            data_type: RecordDataType::Integer { min: 0, max: 2 },
        },
    ]
}

fn indexed_prototype() -> Vec<Record> {
    vec![
        Record { name: RecordName::CartesianX, data_type: RecordDataType::Integer { min: -1000, max: 1000 } },
        Record { name: RecordName::CartesianY, data_type: RecordDataType::Integer { min: -1000, max: 1000 } },
        Record { name: RecordName::CartesianZ, data_type: RecordDataType::Integer { min: -1000, max: 1000 } },
        Record { name: RecordName::RowIndex, data_type: RecordDataType::Integer { min: 0, max: 100 } },
        Record { name: RecordName::ColumnIndex, data_type: RecordDataType::Integer { min: 0, max: 100 } },
    ]
}

fn xyz_point(i: u64) -> Vec<RecordValue> {
    vec![
        RecordValue::Double((i as f64).to_bits()),
        RecordValue::Double((i as f64 * 2.0).to_bits()),
        RecordValue::Double((i as f64 * -0.5).to_bits()),
        RecordValue::Integer((i % 3) as i64),
    ]
}

/// Writes the points into a fresh file and returns the file bytes and the section offset.
fn write_points(prototype: Vec<Record>, points: &[Vec<RecordValue>]) -> (Vec<u8>, u64, u64) {
    let mut writer = PagedWriter::new(Vec::new()).unwrap();
    // Leave some space in front of the section, as a file header would.
    writer.write_all(&[0_u8; 48]).unwrap();
    let mut cv = CompressedVectorWriter::new(&mut writer, prototype).unwrap();
    for p in points {
        cv.add_point(&mut writer, p.clone()).unwrap();
    }
    cv.finalize(&mut writer).unwrap();
    let offset = cv.section_offset();
    let count = cv.point_count();
    (writer.finish().unwrap(), offset, count)
}

/// Reads `count` points of the section at `offset`.
fn read_points(bytes: Vec<u8>, prototype: Vec<Record>, offset: u64, count: u64) -> Vec<Vec<RecordValue>> {
    let mut reader = PagedReader::new(bytes, 1024).unwrap();
    let mut queues = QueueReader::new(prototype, offset, &mut reader).unwrap();
    let mut result = Vec::new();
    while (result.len() as u64) < count {
        if queues.available() == 0 {
            queues.advance(&mut reader).unwrap();
            continue;
        }
        let mut point = Vec::new();
        queues.pop_point(&mut point).unwrap();
        result.push(point);
    }
    result
}

#[test]
fn write_and_read_back_double_points() {
    let points: Vec<Vec<RecordValue>> = (0..10).map(xyz_point).collect();
    let (bytes, offset, count) = write_points(xyz_prototype(), &points);
    assert_eq!(count, 10);
    assert_eq!(offset, 48);
    assert_eq!(bytes.len() % 1024, 0);
    let read = read_points(bytes, xyz_prototype(), offset, count);
    assert_eq!(read, points);
}

#[test]
fn write_and_read_back_many_points() {
    // More points than fit into one data packet.
    let points: Vec<Vec<RecordValue>> = (0..5000).map(xyz_point).collect();
    let (bytes, offset, count) = write_points(xyz_prototype(), &points);
    assert_eq!(count, 5000);
    let read = read_points(bytes, xyz_prototype(), offset, count);
    assert_eq!(read, points);
}

#[test]
fn write_and_read_back_integer_points_with_index_bounds() {
    let mut points = Vec::new();
    for i in 0..300_i64 {
        points.push(vec![
            RecordValue::Integer(i - 150),
            RecordValue::Integer(-i),
            RecordValue::Integer(i * 3),
            RecordValue::Integer(i % 7 + 2),
            RecordValue::Integer(i % 11 + 1),
        ]);
    }
    let mut writer = PagedWriter::new(Vec::new()).unwrap();
    let mut cv = CompressedVectorWriter::new(&mut writer, indexed_prototype()).unwrap();
    for p in &points {
        cv.add_point(&mut writer, p.clone()).unwrap();
    }
    cv.finalize(&mut writer).unwrap();
    let bounds = cv.index_bounds().unwrap();
    assert_eq!(bounds.row_min, Some(2));
    assert_eq!(bounds.row_max, Some(8));
    assert_eq!(bounds.column_min, Some(1));
    assert_eq!(bounds.column_max, Some(11));
    assert_eq!(bounds.return_min, None);
    assert_eq!(bounds.return_max, None);
    let offset = cv.section_offset();
    assert_eq!(offset, 0);
    let bytes = writer.finish().unwrap();
    let read = read_points(bytes, indexed_prototype(), offset, 300);
    assert_eq!(read, points);
}

#[test]
fn no_index_bounds_without_index_records() {
    let mut writer = PagedWriter::new(Vec::new()).unwrap();
    let cv = CompressedVectorWriter::new(&mut writer, xyz_prototype()).unwrap();
    assert!(cv.index_bounds().is_none());
    assert_eq!(cv.point_count(), 0);
}

#[test]
fn invalid_prototype_is_refused() {
    let mut writer = PagedWriter::new(Vec::new()).unwrap();
    // Only X without Y and Z.
    let prototype = vec![Record {
        name: RecordName::CartesianX,
        data_type: RecordDataType::Double { min: None, max: None },
    }];
    assert!(matches!(
        CompressedVectorWriter::new(&mut writer, prototype),
        Err(Error::Invalid { .. })
    ));
}

#[test]
fn wrong_point_is_refused() {
    let mut writer = PagedWriter::new(Vec::new()).unwrap();
    let mut cv = CompressedVectorWriter::new(&mut writer, xyz_prototype()).unwrap();
    // Too few values.
    let r = cv.add_point(&mut writer, vec![RecordValue::Double(0)]);
    assert!(matches!(r, Err(Error::Invalid { .. })));
    // Wrong value kind.
    let r = cv.add_point(
        &mut writer,
        vec![
            RecordValue::Double(0),
            RecordValue::Double(0),
            RecordValue::Single(0),
            RecordValue::Integer(0),
        ],
    );
    assert!(matches!(r, Err(Error::Invalid { .. })));
    // A value outside its integer range is not checked here; its low bits are written.
    let r = cv.add_point(
        &mut writer,
        vec![
            RecordValue::Double(0),
            RecordValue::Double(0),
            RecordValue::Double(0),
            RecordValue::Integer(3),
        ],
    );
    assert!(r.is_ok());
    assert_eq!(cv.point_count(), 1);
}

#[test]
fn empty_point_cloud_section() {
    let (bytes, offset, count) = write_points(xyz_prototype(), &[]);
    assert_eq!(count, 0);
    let mut reader = PagedReader::new(bytes, 1024).unwrap();
    let queues = QueueReader::new(xyz_prototype(), offset, &mut reader).unwrap();
    assert_eq!(queues.available(), 0);
}

#[test]
fn queue_reader_refuses_bad_offset() {
    let (bytes, _, _) = write_points(xyz_prototype(), &[xyz_point(1)]);
    let len = bytes.len() as u64;
    let mut reader = PagedReader::new(bytes, 1024).unwrap();
    assert!(QueueReader::new(xyz_prototype(), len, &mut reader).is_err());
}

#[test]
fn pop_point_on_empty_queues_fails() {
    let (bytes, offset, _) = write_points(xyz_prototype(), &[]);
    let mut reader = PagedReader::new(bytes, 1024).unwrap();
    let mut queues = QueueReader::new(xyz_prototype(), offset, &mut reader).unwrap();
    let mut out = Vec::new();
    assert!(matches!(queues.pop_point(&mut out), Err(Error::Internal { .. })));
}
