use e57::{
    raw_xml, CompressedVectorSectionHeader, DataPacketHeader, Error, Header, PagedReader, PagedWriter, QueueReader,
    Record, RecordDataType, RecordName, RecordValue, MAX_XML_SIZE,
};

fn byte_prototype() -> Vec<Record> {
    [RecordName::CartesianX, RecordName::CartesianY, RecordName::CartesianZ]
        .into_iter()
        .map(|name| Record { name, data_type: RecordDataType::Integer { min: 0, max: 255 } })
        .collect()
}

/// A section at offset zero whose packets follow the given bytes.
fn section_with(packets: &[u8]) -> PagedReader {
    let mut writer = PagedWriter::new(Vec::new()).unwrap();
    let mut header = CompressedVectorSectionHeader::default();
    header.section_length = 32 + packets.len() as u64;
    header.data_offset = 32;
    header.write(&mut writer).unwrap();
    writer.write_all(packets).unwrap();
    PagedReader::new(writer.finish().unwrap(), 1024).unwrap()
}

fn data_packet(count: u16) -> Vec<u8> {
    let header = DataPacketHeader { comp_restart_flag: false, packet_length: 20, bytestream_count: count };
    let mut bytes = header.to_bytes();
    bytes.extend_from_slice(&[2, 0, 2, 0, 2, 0]);
    bytes.extend_from_slice(&[1, 2, 3, 4, 5, 6, 0, 0]);
    bytes
}

#[test]
fn ignored_packet_then_data_packet() {
    // An ignored packet of length 8: its four header bytes, then the four bytes of its body.
    let mut packets = vec![2_u8, 0, 7, 0];
    packets.extend_from_slice(&[9_u8; 4]);
    packets.extend(data_packet(3));
    let mut reader = section_with(&packets);
    let mut queues = QueueReader::new(byte_prototype(), 0, &mut reader).unwrap();
    queues.advance(&mut reader).unwrap();
    assert_eq!(queues.available(), 0);
    queues.advance(&mut reader).unwrap();
    assert_eq!(queues.available(), 2);
    let mut point = Vec::new();
    queues.pop_point(&mut point).unwrap();
    assert_eq!(point, vec![RecordValue::Integer(1), RecordValue::Integer(3), RecordValue::Integer(5)]);
    let mut point = Vec::new();
    queues.pop_point(&mut point).unwrap();
    assert_eq!(point, vec![RecordValue::Integer(2), RecordValue::Integer(4), RecordValue::Integer(6)]);
    assert_eq!(queues.available(), 0);
}

#[test]
fn index_packet_then_data_packet() {
    // An index packet of length 32: its sixteen header bytes, then sixteen bytes of entries.
    let mut packets = vec![0_u8, 0, 31, 0, 1, 0, 0, 0, 0, 0, 0, 0, 0, 0, 0, 0];
    packets.extend_from_slice(&[7_u8; 16]);
    packets.extend(data_packet(3));
    let mut reader = section_with(&packets);
    let mut queues = QueueReader::new(byte_prototype(), 0, &mut reader).unwrap();
    queues.advance(&mut reader).unwrap();
    assert_eq!(queues.available(), 0);
    queues.advance(&mut reader).unwrap();
    assert_eq!(queues.available(), 2);
    let mut point = Vec::new();
    queues.pop_point(&mut point).unwrap();
    assert_eq!(point, vec![RecordValue::Integer(1), RecordValue::Integer(3), RecordValue::Integer(5)]);
}

#[test]
fn index_packet_shorter_than_header() {
    let mut packets = vec![0_u8, 0, 7, 0, 1, 0, 0, 0, 0, 0, 0, 0, 0, 0, 0, 0];
    packets.extend(data_packet(3));
    let mut reader = section_with(&packets);
    let mut queues = QueueReader::new(byte_prototype(), 0, &mut reader).unwrap();
    assert!(matches!(queues.advance(&mut reader), Err(Error::Invalid { .. })));
}

#[test]
fn data_packet_with_wrong_stream_count() {
    let mut reader = section_with(&data_packet(2));
    let mut queues = QueueReader::new(byte_prototype(), 0, &mut reader).unwrap();
    assert!(matches!(queues.advance(&mut reader), Err(Error::Invalid { .. })));
}

#[test]
fn unknown_packet_type() {
    let mut reader = section_with(&[7_u8, 0, 3, 0]);
    let mut queues = QueueReader::new(byte_prototype(), 0, &mut reader).unwrap();
    assert!(matches!(queues.advance(&mut reader), Err(Error::Invalid { .. })));
}

#[test]
fn packet_beyond_end_of_file() {
    let mut reader = section_with(&[]);
    let mut queues = QueueReader::new(byte_prototype(), 0, &mut reader).unwrap();
    // The logical file ends with the page: its zero bytes read as an index packet whose body
    // reaches beyond the end.
    let mut result = Ok(());
    for _ in 0..100 {
        result = queues.advance(&mut reader);
        if result.is_err() {
            break;
        }
    }
    assert!(matches!(result, Err(Error::Read { .. }) | Err(Error::Invalid { .. })));
}

#[test]
fn raw_xml_refuses_large_sections() {
    let mut writer = PagedWriter::new(Vec::new()).unwrap();
    let mut header = Header::default();
    header.xml_length = MAX_XML_SIZE as u64 + 1;
    header.write(&mut writer).unwrap();
    let file = writer.finish().unwrap();
    assert!(matches!(raw_xml(file), Err(Error::NotImplemented { .. })));
    assert!(matches!(raw_xml(vec![0_u8; 20]), Err(Error::Read { .. })));
}

#[test]
fn vector_appended_to_queue() {
    let mut q = std::collections::VecDeque::from(vec![1_u8, 2]);
    e57::append_vec_to_queue(&vec![3_u8, 4, 5], &mut q);
    assert_eq!(q, std::collections::VecDeque::from(vec![1_u8, 2, 3, 4, 5]));
    e57::append_vec_to_queue(&Vec::<u8>::new(), &mut q);
    assert_eq!(q.len(), 5);
}

fn near_max_prototype() -> Vec<Record> {
    [RecordName::CartesianX, RecordName::CartesianY, RecordName::CartesianZ]
        .into_iter()
        .map(|name| Record { name, data_type: RecordDataType::Integer { min: i64::MAX - 5, max: i64::MAX } })
        .collect()
}

fn packet_with_streams(stream: [u8; 2]) -> Vec<u8> {
    let header = DataPacketHeader { comp_restart_flag: false, packet_length: 20, bytestream_count: 3 };
    let mut bytes = header.to_bytes();
    bytes.extend_from_slice(&[2, 0, 2, 0, 2, 0]);
    for _ in 0..3 {
        bytes.extend_from_slice(&stream);
    }
    bytes.extend_from_slice(&[0, 0]);
    bytes
}

#[test]
fn integer_values_near_the_limit_decode() {
    let mut reader = section_with(&packet_with_streams([0b0000_1101, 0]));
    let mut queues = QueueReader::new(near_max_prototype(), 0, &mut reader).unwrap();
    queues.advance(&mut reader).unwrap();
    let mut point = Vec::new();
    queues.pop_point(&mut point).unwrap();
    assert_eq!(point, vec![RecordValue::Integer(i64::MAX); 3]);
    let mut point = Vec::new();
    queues.pop_point(&mut point).unwrap();
    assert_eq!(point, vec![RecordValue::Integer(i64::MAX - 4); 3]);
}

#[test]
fn integer_value_beyond_i64_is_refused() {
    let mut reader = section_with(&packet_with_streams([0xff, 0xff]));
    let mut queues = QueueReader::new(near_max_prototype(), 0, &mut reader).unwrap();
    assert!(matches!(queues.advance(&mut reader), Err(Error::Invalid { .. })));
}
